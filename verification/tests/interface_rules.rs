use frontend::error_messages::span::Span;
use frontend::errors::dcx::DiagCtxt;
use frontend::errors::diag::DiagHashes;
use frontend::errors::diag::DiagInner;
use frontend::errors::item_scope::FatalError;
use frontend::errors::level::Level;
use frontend::interface::crate_info::check_crate_types;
use frontend::interface::crate_info::collect_crate_types;
use frontend::interface::crate_info::default_output_for_target;
use frontend::interface::crate_info::get_crate_name;
use frontend::interface::crate_info::writes_interface;
use frontend::interface::crate_info::CrateType;
use frontend::interface::crate_info::NameFault;
use frontend::interface::crate_info::TypeFacts;
use frontend::interface::crate_info::TypeOptions;
use frontend::interface::crate_info::TypeReport;
use frontend::interface::crate_info::TypeWarning;
use frontend::interface::limits::get_recursion_limit;
use frontend::interface::limits::provide;
use frontend::interface::limits::Limit;
use frontend::interface::limits::LimitFacts;
use frontend::interface::outputs::build_output_filenames;
use frontend::interface::outputs::dep_info_fault;
use frontend::interface::outputs::generated_output_paths;
use frontend::interface::outputs::multiple_output_types_to_stdout;
use frontend::interface::outputs::only_dep_info;
use frontend::interface::outputs::output_conflicts_with_dir;
use frontend::interface::outputs::output_contains_path;
use frontend::interface::outputs::wants_dep_info;
use frontend::interface::outputs::write_dep_info;
use frontend::interface::outputs::write_interface;
use frontend::interface::outputs::DepInfoFacts;
use frontend::interface::outputs::DepInfoFault;
use frontend::interface::outputs::DepInfoStep;
use frontend::interface::outputs::InterfaceStep;
use frontend::interface::outputs::OutFileName;
use frontend::interface::outputs::OutputEntry;
use frontend::interface::outputs::OutputFacts;
use frontend::interface::outputs::OutputFile;
use frontend::interface::outputs::OutputType;
use frontend::interface::outputs::OutputWarning;
use frontend::interface::passes::analysed_crate_types;
use frontend::interface::passes::analysis;
use frontend::interface::passes::checks_of_body;
use frontend::interface::passes::configure_and_expand;
use frontend::interface::passes::emit_delayed_lints;
use frontend::interface::passes::final_bodies;
use frontend::interface::passes::parse;
use frontend::interface::passes::run_required_analyses;
use frontend::interface::passes::Analysis;
use frontend::interface::passes::AnalysisFacts;
use frontend::interface::passes::BodyCheck;
use frontend::interface::passes::BodyFacts;
use frontend::interface::passes::ExpandFacts;
use frontend::interface::passes::ExpandStep;
use frontend::interface::passes::ParseStep;
use frontend::interface::session::after_consumer;
use frontend::interface::session::run_compiler;
use frontend::interface::session::Compiler;
use frontend::interface::session::rustc_version_str;
use frontend::interface::session::Config;
use frontend::interface::session::RunStep;
use frontend::interface::util::bad_identifier;
use frontend::interface::util::check_abi_required_features;
use frontend::interface::util::extended_search_path;
use frontend::interface::util::ferris_fix;
use frontend::interface::util::init_stack_size;
use frontend::interface::util::invocation_suffix;
use frontend::interface::util::parse_number;
use frontend::interface::util::query_stack_footer;
use frontend::interface::util::session_width;
use frontend::interface::util::version_of_output;
use frontend::interface::util::AbiFeature;
use frontend::interface::util::AbiWarning;
use frontend::interface::util::FerrisFix;
use frontend::interface::util::DEFAULT_STACK_SIZE;
use frontend::sync::mode::Fallback;
use frontend::sync::mode::Modes;
use frontend::sync::worker_local::RegistryId;
use frontend::sync::worker_local::ThreadData;

fn text(s: &str) -> String {
    s.to_string()
}

fn span(lo: u32, hi: u32) -> Span {
    Span { lo, hi, ctxt: 0, parent: None }
}

fn options(test: bool, executables: bool, crate_types: Vec<CrateType>) -> TypeOptions {
    TypeOptions { test, executables, build_sdylib_interface: false, crate_types }
}

#[test]
fn crate_types_from_options_and_attributes() {
    let all = vec![CrateType::Executable, CrateType::Rlib, CrateType::Dylib];
    let given = collect_crate_types(
        &options(false, true, vec![CrateType::Rlib, CrateType::Rlib]),
        &vec![CrateType::Dylib],
        &vec![],
        &all,
    );
    assert_eq!(given.types, vec![CrateType::Rlib, CrateType::Rlib]);
    let attributes = collect_crate_types(
        &options(false, true, vec![]),
        &vec![CrateType::Rlib, CrateType::Executable, CrateType::Rlib],
        &vec![],
        &all,
    );
    assert_eq!(attributes.types, vec![CrateType::Executable, CrateType::Rlib]);
    let neither = collect_crate_types(&options(false, true, vec![]), &vec![], &vec![], &all);
    assert_eq!(neither.types, vec![CrateType::Executable]);
    assert_eq!(default_output_for_target(false), CrateType::StaticLib);
}

#[test]
fn a_test_crate_is_an_executable() {
    let all = vec![CrateType::Executable];
    let test = collect_crate_types(&options(true, true, vec![CrateType::Rlib]), &vec![], &vec![], &all);
    assert_eq!(test.types, vec![CrateType::Executable]);
    assert!(test.warnings.is_empty());
    let none = collect_crate_types(&options(true, false, vec![]), &vec![], &vec![], &all);
    assert!(none.types.is_empty());
    assert_eq!(none.warnings, vec![TypeWarning::UnsupportedForTarget(CrateType::Executable)]);
    let mut interface = options(false, true, vec![CrateType::Dylib]);
    interface.build_sdylib_interface = true;
    assert_eq!(collect_crate_types(&interface, &vec![], &vec![], &all).types, vec![CrateType::Rlib]);
}

#[test]
fn types_that_nobody_supports_are_dropped() {
    let out = collect_crate_types(
        &options(false, true, vec![CrateType::Dylib, CrateType::Rlib, CrateType::Cdylib]),
        &vec![],
        &vec![CrateType::Dylib],
        &vec![CrateType::Rlib],
    );
    assert_eq!(out.types, vec![CrateType::Rlib]);
    assert_eq!(
        out.warnings,
        vec![
            TypeWarning::UnsupportedForTarget(CrateType::Dylib),
            TypeWarning::UnsupportedForFrontend(CrateType::Cdylib),
        ]
    );
}

#[test]
fn analysed_crates_are_libraries_or_programs() {
    let (types, program) =
        analysed_crate_types(&options(false, true, vec![CrateType::Cdylib, CrateType::Executable]), &vec![], &vec![]);
    assert_eq!(types.types, vec![CrateType::Executable]);
    assert!(program);
    let (_, library) = analysed_crate_types(&options(false, true, vec![CrateType::Rlib]), &vec![], &vec![]);
    assert!(!library);
}

#[test]
fn reports_about_crate_types() {
    let facts = TypeFacts {
        is_like_wasm: true,
        wasm_proc_macros: false,
        export_stable: false,
        unwinds: false,
    };
    assert_eq!(
        check_crate_types(&vec![CrateType::Executable, CrateType::ProcMacro, CrateType::Sdylib], facts),
        vec![
            TypeReport::MixedBinCrate,
            TypeReport::MixedProcMacroCrate,
            TypeReport::UnstableWasmProcMacro,
            TypeReport::UnstableSdylib,
            TypeReport::ProcMacroCratePanicAbort,
        ]
    );
    assert!(check_crate_types(&vec![CrateType::Executable], facts).is_empty());
    assert!(writes_interface(&vec![CrateType::Rlib, CrateType::Sdylib]));
    assert!(!writes_interface(&vec![CrateType::Rlib]));
}

#[test]
fn where_a_crate_name_comes_from() {
    let option = get_crate_name(Some("a"), Some(("a", span(1, 2))), Some("f"));
    assert_eq!(option.name, "a");
    assert!(option.fault.is_none());
    let differs = get_crate_name(Some("a"), Some(("b", span(1, 2))), None);
    assert_eq!(differs.name, "a");
    assert!(matches!(differs.fault, Some(NameFault::DoesNotMatch(s)) if s == span(1, 2)));
    let attribute = get_crate_name(None, Some(("b", span(1, 2))), Some("f"));
    assert_eq!(attribute.name, "b");
    let file = get_crate_name(None, None, Some("my-file"));
    assert_eq!(file.name, "my_file");
    let dash = get_crate_name(None, None, Some("-file"));
    assert_eq!(dash.name, "rust_out");
    assert!(matches!(dash.fault, Some(NameFault::Invalid)));
    let nothing = get_crate_name(None, None, None);
    assert_eq!(nothing.name, "rust_out");
}

#[test]
fn limits_have_defaults() {
    assert_eq!(get_recursion_limit(None, None), Limit(128));
    assert_eq!(get_recursion_limit(Some(7), None), Limit(7));
    assert_eq!(get_recursion_limit(Some(7), Some(50)), Limit(50));
    assert_eq!(get_recursion_limit(Some(70), Some(50)), Limit(70));
    let facts = LimitFacts {
        recursion_limit: None,
        min_recursion_limit: None,
        move_size_limit: None,
        option_move_size_limit: Some(3),
        type_length_limit: None,
        pattern_complexity_limit: None,
    };
    let limits = provide(facts);
    assert_eq!(limits.recursion_limit, Limit(128));
    assert_eq!(limits.move_size_limit, Limit(3));
    assert_eq!(limits.type_length_limit, Limit(1 << 24));
}

fn entry(kind: OutputType, file: Option<OutFileName>, path: &str) -> OutputEntry {
    let stdout = file == Some(OutFileName::Stdout);
    OutputEntry { kind, text: kind != OutputType::Exe, file, path: text(path), stdout }
}

#[test]
fn paths_of_the_outputs() {
    let outputs = vec![
        entry(OutputType::Exe, None, "exe"),
        entry(OutputType::DepInfo, None, "x.d"),
        entry(OutputType::Other, None, "x.s"),
    ];
    let crates = vec![text("liba"), text("a")];
    assert_eq!(generated_output_paths(&outputs, false, &crates, false), vec!["liba", "a", "x.d", "x.s"]);
    assert_eq!(generated_output_paths(&outputs, true, &crates, true), vec!["exe", "x.s"]);
    assert!(wants_dep_info(&outputs));
    assert!(!only_dep_info(&outputs));
    assert!(only_dep_info(&vec![entry(OutputType::DepInfo, None, "x.d")]));
}

#[test]
fn outputs_must_not_overwrite() {
    let paths = vec![None, Some(text("/a"))];
    assert!(output_contains_path(&paths, &Some(text("/a"))));
    assert!(!output_contains_path(&paths, &Some(text("/b"))));
    assert!(!output_contains_path(&paths, &None));
    assert_eq!(output_conflicts_with_dir(&vec![false, true, true]), Some(1));
    assert_eq!(output_conflicts_with_dir(&vec![false]), None);
    assert_eq!(
        dep_info_fault(true, true, true, &vec![true]),
        Some(DepInfoFault::InputFileWouldBeOverWritten)
    );
    assert_eq!(
        dep_info_fault(true, true, false, &vec![false, true]),
        Some(DepInfoFault::GeneratedFileConflictsWithDirectory(1))
    );
    assert_eq!(dep_info_fault(true, false, true, &vec![true]), None);
    assert_eq!(dep_info_fault(false, true, true, &vec![true]), None);
}

#[test]
fn dependency_rules_are_written_in_order() {
    let facts = |fault, temps_dir, output_dir, only_dep_info| DepInfoFacts {
        fault,
        temps_dir,
        wanted: true,
        written: true,
        notify: false,
        output_dir,
        only_dep_info,
    };
    assert_eq!(
        write_dep_info(facts(None, Some(true), Some(true), false)),
        vec![DepInfoStep::CreateTempsDir, DepInfoStep::WriteDeps, DepInfoStep::CreateOutputDir]
    );
    assert_eq!(
        write_dep_info(facts(None, None, Some(true), true)),
        vec![DepInfoStep::WriteDeps]
    );
    assert_eq!(
        write_dep_info(facts(None, Some(false), Some(true), false)),
        vec![DepInfoStep::CreateTempsDir, DepInfoStep::GiveUp(DepInfoFault::TempsDirError)]
    );
    assert_eq!(
        write_dep_info(facts(None, None, Some(false), false)),
        vec![
            DepInfoStep::WriteDeps,
            DepInfoStep::CreateOutputDir,
            DepInfoStep::GiveUp(DepInfoFault::OutDirError)
        ]
    );
    let plain = facts(None, None, None, false);
    assert_eq!(
        write_dep_info(DepInfoFacts { notify: true, ..plain }),
        vec![DepInfoStep::WriteDeps, DepInfoStep::NotifyArtifact]
    );
    assert_eq!(
        write_dep_info(DepInfoFacts { written: false, output_dir: Some(true), ..plain }),
        vec![
            DepInfoStep::WriteDeps,
            DepInfoStep::GiveUp(DepInfoFault::ErrorWritingDependencies)
        ]
    );
    assert_eq!(write_dep_info(DepInfoFacts { wanted: false, ..plain }), vec![]);
    let fault = DepInfoFault::InputFileWouldBeOverWritten;
    assert_eq!(
        write_dep_info(facts(Some(fault), Some(true), Some(true), false)),
        vec![DepInfoStep::GiveUp(fault)]
    );
}

#[test]
fn a_stable_library_has_an_interface() {
    let types = vec![CrateType::Rlib, CrateType::Sdylib];
    assert_eq!(write_interface(&vec![CrateType::Rlib], true, true), vec![]);
    assert_eq!(
        write_interface(&types, true, true),
        vec![InterfaceStep::PrintCrate, InterfaceStep::CreateFile, InterfaceStep::WriteFile]
    );
    assert_eq!(
        write_interface(&types, false, true),
        vec![InterfaceStep::PrintCrate, InterfaceStep::CreateFile, InterfaceStep::GiveUp]
    );
    assert_eq!(write_interface(&types, true, false).last(), Some(&InterfaceStep::GiveUp));
}

#[test]
fn standard_output_takes_one_output() {
    let two = vec![
        entry(OutputType::DepInfo, Some(OutFileName::Stdout), ""),
        entry(OutputType::Other, Some(OutFileName::Stdout), ""),
    ];
    assert!(multiple_output_types_to_stdout(&two, true, false));
    let one = vec![
        entry(OutputType::Exe, Some(OutFileName::Stdout), ""),
        entry(OutputType::Other, Some(OutFileName::Stdout), ""),
    ];
    assert!(!multiple_output_types_to_stdout(&one, true, false));
    assert!(multiple_output_types_to_stdout(&one, false, false));
    let unnamed = vec![entry(OutputType::DepInfo, None, ""), entry(OutputType::Other, None, "")];
    assert!(!multiple_output_types_to_stdout(&unnamed, false, false));
    assert!(multiple_output_types_to_stdout(&unnamed, false, true));
}

fn output_facts(outputs: Vec<OutputEntry>, output_file: Option<OutputFile>) -> OutputFacts {
    OutputFacts {
        outputs,
        stdout_is_terminal: false,
        crate_name: None,
        invocation: None,
        output_file,
        output_dir: None,
        input_filestem: text("main"),
        has_extra_filename: false,
    }
}

#[test]
fn names_of_outputs_from_the_input() {
    let mut facts = output_facts(vec![entry(OutputType::Exe, None, "")], None);
    facts.output_dir = Some(text("dir"));
    let names = build_output_filenames(&facts).unwrap();
    assert_eq!(names.out_directory, "dir");
    assert_eq!(names.filestem, "main");
    assert!(!names.single_output_file);
    assert!(names.warnings.is_empty());
    facts.crate_name = Some(text("krate"));
    assert_eq!(build_output_filenames(&facts).unwrap().filestem, "krate");
}

#[test]
fn names_of_outputs_from_a_file() {
    let file = |name| OutputFile { name, filestem: text("out"), parent: text("p") };
    let two = || vec![entry(OutputType::Exe, None, ""), entry(OutputType::Other, None, "")];
    let mut facts = output_facts(two(), Some(file(OutFileName::Real)));
    facts.output_dir = Some(text("dir"));
    facts.has_extra_filename = true;
    let names = build_output_filenames(&facts).unwrap();
    assert_eq!(
        names.warnings,
        vec![OutputWarning::MultipleOutputTypesAdaption, OutputWarning::IgnoringOutDir]
    );
    assert_eq!(names.filestem, "out");
    assert!(!names.single_output_file);
    let mut one = output_facts(vec![entry(OutputType::Exe, None, "")], Some(file(OutFileName::Real)));
    one.has_extra_filename = true;
    let names = build_output_filenames(&one).unwrap();
    assert_eq!(names.warnings, vec![OutputWarning::IgnoringExtraFilename]);
    assert!(names.single_output_file);
    assert!(build_output_filenames(&output_facts(two(), Some(file(OutFileName::Stdout)))).is_none());
}

#[test]
fn widths_of_sessions() {
    assert_eq!(session_width(None, true), 1);
    assert_eq!(session_width(Some(4), true), 4);
    assert_eq!(session_width(Some(4), false), 1);
}

#[test]
fn numbers_from_text() {
    assert_eq!(parse_number("12"), Some(12));
    assert_eq!(parse_number("+12"), Some(12));
    assert_eq!(parse_number("18446744073709551615"), Some(usize::MAX));
    assert_eq!(parse_number("18446744073709551616"), None);
    assert_eq!(parse_number(""), None);
    assert_eq!(parse_number("+"), None);
    assert_eq!(parse_number("-1"), None);
    assert_eq!(parse_number("1 "), None);
}

#[test]
fn the_stack_size_can_be_set() {
    assert!(matches!(init_stack_size(None), Ok(DEFAULT_STACK_SIZE)));
    assert!(matches!(init_stack_size(Some("  ")), Ok(DEFAULT_STACK_SIZE)));
    assert!(matches!(init_stack_size(Some(" 4096 ")), Ok(4096)));
    let fault = match init_stack_size(Some("big")) {
        Err(fault) => fault,
        Ok(_) => panic!("not a number"),
    };
    assert_eq!(fault.message, "`RUST_MIN_STACK` should be a number of bytes, but was \"big\"");
    assert_eq!(fault.note, "you can also unset `RUST_MIN_STACK` to use the default stack size");
    assert_eq!(DEFAULT_STACK_SIZE, 16 * 1024 * 1024);
}

#[test]
fn versions_of_compilers() {
    assert_eq!(version_of_output("rustc 1.80.0 (x)\n").unwrap(), "1.80.0 (x)");
    assert_eq!(version_of_output(" 1.2 ").unwrap(), "1.2");
    assert_eq!(version_of_output("rustc \n"), Some(text("rustc")));
    assert_eq!(version_of_output("  "), None);
    assert_eq!(rustc_version_str(Some("1.0")), Some("1.0"));
}

#[test]
fn counters_tell_invocations_apart() {
    assert_ne!(invocation_suffix(7, 9, 0), invocation_suffix(7, 9, 1));
}

#[test]
fn warnings_about_calling_conventions() {
    let on = AbiFeature { known: true, enabled: true };
    let off = AbiFeature { known: true, enabled: false };
    assert_eq!(
        check_abi_required_features(&vec![on, off], &vec![off, on]),
        vec![AbiWarning::MustBeEnabled(1), AbiWarning::MustBeDisabled(1)]
    );
}

#[test]
fn crabs_are_no_identifiers() {
    assert_eq!(ferris_fix(Some("pub struct")), FerrisFix::PascalCase);
    assert_eq!(ferris_fix(Some("const")), FerrisFix::ScreamingSnakeCase);
    assert_eq!(ferris_fix(Some("static mut")), FerrisFix::ScreamingSnakeCase);
    assert_eq!(ferris_fix(Some("let mut")), FerrisFix::SnakeCase);
    assert_eq!(ferris_fix(None), FerrisFix::SnakeCase);
    assert_eq!(FerrisFix::PascalCase.as_str(), "Ferris");
    let report = bad_identifier(true, vec![span(5, 6), span(1, 2)], Some("enum"));
    assert_eq!(report.spans, vec![span(1, 2), span(5, 6)]);
    assert_eq!(report.fix, Some(FerrisFix::PascalCase));
    assert!(bad_identifier(false, vec![span(1, 2)], None).fix.is_none());
}

#[test]
fn search_paths_hold_each_path_once() {
    let path = |s: &str| s.as_bytes().to_vec();
    assert_eq!(
        extended_search_path(vec![path("/a")], vec![path("/b"), path("/a"), path("/c:d"), path("/b")]),
        path("/a:/b")
    );
}

#[test]
fn the_end_of_a_query_stack() {
    assert_eq!(query_stack_footer(3, None), "end of query stack");
    assert_eq!(query_stack_footer(3, Some(2)), "... and 1 other queries... use `env RUST_BACKTRACE=1` to see the full query stack");
}

#[test]
fn steps_of_parsing_and_expanding() {
    assert_eq!(parse(true, false), vec![ParseStep::ParseFile, ParseStep::InjectAttributes]);
    assert_eq!(parse(false, true), vec![ParseStep::ParseString, ParseStep::EmitAndRaise]);
    let facts = ExpandFacts {
        windows: false,
        macro_errors: true,
        reduced_recursion_limit: true,
        macro_stats: true,
    };
    assert_eq!(
        configure_and_expand(facts),
        vec![
            ExpandStep::PreExpansionLints,
            ExpandStep::RegisterBuiltinMacros,
            ExpandStep::InjectStandardLibrary,
            ExpandStep::ExpandCrate,
            ExpandStep::AbortIfErrors,
            ExpandStep::BufferEarlyLints,
            ExpandStep::CheckUnusedMacros,
            ExpandStep::AbortIfErrors,
        ]
    );
}

#[test]
fn required_analyses_come_first() {
    let facts = AnalysisFacts {
        input_stats: true,
        debug_assertions: false,
        lints_capped_to_allow: true,
        validate_mir: false,
    };
    let required = run_required_analyses(facts);
    let all = analysis(facts);
    assert_eq!(required[0], Analysis::PrintHirStats);
    assert_eq!(required[..], all[..required.len()]);
    assert_eq!(all[required.len()], Analysis::AbortIfHardErrors);
    assert!(!all.contains(&Analysis::CheckLints));
}

#[test]
fn delayed_lints_are_emitted_owner_by_owner() {
    assert_eq!(emit_delayed_lints(&vec![Some(2), None, Some(1)]), vec![(0, 0), (0, 1), (2, 0)]);
}

#[test]
fn trivial_constants_have_no_final_body() {
    assert_eq!(final_bodies(&vec![false, true, false]), vec![0, 2]);
    assert_eq!(final_bodies(&vec![true]), vec![]);
}

#[test]
fn checks_of_one_body() {
    let facts = BodyFacts {
        typeck_child: false,
        trivial_const: false,
        const_context: true,
        coroutine: false,
        async_drop_in_place: false,
        offload: false,
        should_codegen: false,
    };
    let checks = checks_of_body(facts);
    assert!(checks.contains(&BodyCheck::Borrowck));
    assert!(checks.contains(&BodyCheck::ConstCheckedDrops));
    assert!(!checks.contains(&BodyCheck::CoroutineLayout));
}

fn session(
    config: Config,
    modes: &mut Modes,
    data: &mut ThreadData,
    error: bool,
) -> (Result<(usize, String, usize), FatalError>, Vec<RunStep>, bool) {
    let flushed = std::cell::Cell::new(false);
    let ended = run_compiler(
        config,
        Some("1"),
        true,
        modes,
        data,
        RegistryId(5),
        || 7,
        |_compiler: &Compiler, target: i32| {
            assert_eq!(target, 7);
            DiagCtxt::new(0)
        },
        |compiler: &Compiler, dcx: DiagCtxt| {
            let mut dcx = dcx;
            if error {
                let hashes = DiagHashes { own: 1, as_error: 2, as_bug: 3 };
                let bad = DiagInner::new(Level::Error, text("bad").into(), text("here"), hashes);
                dcx.emit_diagnostic(bad, 0, false);
            }
            let seen = (compiler.width, compiler.cfg_version.clone(), compiler.thread.index);
            (seen, dcx)
        },
        |dcx| dcx,
        |dcx| {
            flushed.set(true);
            dcx
        },
    );
    (ended.result, ended.steps, flushed.get())
}

#[test]
fn the_life_of_a_session() {
    let mut modes = Modes { width: 9, fallback: Fallback::NotThreadSafe };
    let mut data = ThreadData::new();
    let config = Config { frontend_jobs: Some(3), psess_created: true, rustc_version: Some(text("9")) };
    let (result, steps, flushed) = session(config, &mut modes, &mut data, false);
    assert_eq!(result, Ok((3, text("9"), 0)));
    assert!(flushed);
    assert_eq!(steps[0], RunStep::EnterSession);
    assert_eq!(
        steps[steps.len() - 4..],
        [
            RunStep::AbortIfErrors,
            RunStep::FlushDelayed,
            RunStep::DropCompiler,
            RunStep::LeaveSession
        ]
    );
    assert!(steps.contains(&RunStep::InstallSink));
    assert_eq!(modes, Modes { width: 9, fallback: Fallback::ThreadSafe });
    assert_eq!(data, ThreadData::new());
    let plain = Config { frontend_jobs: None, psess_created: false, rustc_version: None };
    let (result, steps, _) = session(plain, &mut modes, &mut data, false);
    assert_eq!(result, Ok((1, text("1"), 0)));
    assert!(!steps.contains(&RunStep::InstallSink));
}

#[test]
fn a_session_with_errors_raises() {
    let mut modes = Modes { width: 0, fallback: Fallback::Uninitialized };
    let mut data = ThreadData::new();
    let plain = Config { frontend_jobs: None, psess_created: false, rustc_version: None };
    let (result, steps, flushed) = session(plain, &mut modes, &mut data, true);
    assert_eq!(result, Err(FatalError));
    assert!(!flushed);
    assert_eq!(
        steps[steps.len() - 3..],
        [RunStep::AbortIfErrors, RunStep::RaiseFatal, RunStep::LeaveSession]
    );
    assert_eq!(modes, Modes { width: 0, fallback: Fallback::NotThreadSafe });
    assert_eq!(data, ThreadData::new());
    let clean = DiagCtxt::new(0);
    assert_eq!(after_consumer(4, &clean), Ok(4));
}
