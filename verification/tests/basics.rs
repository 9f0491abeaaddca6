use frontend::base_n::ToBaseN;
use frontend::base_n::ALPHANUMERIC_ONLY;
use frontend::base_n::CASE_INSENSITIVE;
use frontend::feature::find_feature_issue;
use frontend::feature::to_nonzero;
use frontend::feature::Feature;
use frontend::feature::GateIssue;
use frontend::feature::LangFeatures;
use frontend::feature::UnstableFeatures;
use frontend::flock::error_unsupported;
use frontend::flock::LockKind;
use frontend::flock::LockOpen;
use frontend::flock::LockRequest;
use frontend::fs_util::fix_windows_verbatim_for_gcc;
use frontend::fs_util::link_or_copy;
use frontend::fs_util::path_to_c_string;
use frontend::fs_util::try_canonicalize;
use frontend::fs_util::LinkAction;
use frontend::fs_util::LinkEvent;
use frontend::fs_util::LinkOrCopy;
use frontend::fs_util::TempDirBuilder;
use frontend::hir_analysis::adjust_steps;
use frontend::hir_analysis::check_c_variadic_abi;
use frontend::hir_analysis::check_crate;
use frontend::hir_analysis::checks_of_owner;
use frontend::hir_analysis::coherence_weight;
use frontend::hir_analysis::inferred_outlives;
use frontend::hir_analysis::variadic_feature_message;
use frontend::hir_analysis::AutoderefKind;
use frontend::hir_analysis::BodyKind;
use frontend::hir_analysis::CVariadicStatus;
use frontend::hir_analysis::Clause;
use frontend::hir_analysis::CrateCheck;
use frontend::hir_analysis::DerefStep;
use frontend::hir_analysis::OwnerCheck;
use frontend::hir_analysis::OwnerFacts;
use frontend::hir_analysis::VariadicFault;
use frontend::id_map::IdMap;
use frontend::sort::is_text_leq;
use frontend::sort::sort;
use frontend::temp_dir::MaybeTempDir;
use frontend::text::decimal_text;
use frontend::text::join;
use frontend::text::replace;
use frontend::text::signed_decimal_text;
use frontend::text::split_whitespace;
use frontend::text::trim;
use frontend::text_map::TextMap;

fn text(s: &str) -> String {
    s.to_string()
}

#[test]
fn numbers_in_other_bases() {
    assert_eq!(0u64.to_base(2).as_str(), "0");
    assert_eq!(35u64.to_base(36).as_str(), "z");
    assert_eq!(36u64.to_base(CASE_INSENSITIVE).as_str(), "10");
    assert_eq!(61u32.to_base(ALPHANUMERIC_ONLY).as_str(), "Z");
    assert_eq!(u128::MAX.to_base(16).as_str(), "ffffffffffffffffffffffffffffffff");
    for n in [1u64, 77, 123_456_789, u64::MAX] {
        for base in 2..=36 {
            let digits = n.to_base(base).to_text();
            assert_eq!(u64::from_str_radix(&digits, base as u32), Ok(n));
        }
    }
}

#[test]
fn text_helpers() {
    assert_eq!(decimal_text(1203), "1203");
    assert_eq!(signed_decimal_text(i128::MIN), "-170141183460469231731687303715884105728");
    assert_eq!(trim(" \u{2003}a b\n"), "a b");
    assert_eq!(split_whitespace("  a  bc\td "), vec!["a", "bc", "d"]);
    assert_eq!(join(&vec![text("a"), text("b")], ", "), "a, b");
    assert_eq!(replace("a-b-", '-', "__"), "a__b__");
}

#[test]
fn sorting_keeps_every_value() {
    assert_eq!(sort(vec![3u32, 1, 2, 1]), vec![1, 1, 2, 3]);
    assert!(is_text_leq("a", "ab"));
    assert!(is_text_leq("Z", "a"));
    assert!(!is_text_leq("b", "a"));
}

#[test]
fn maps_keep_the_order_of_insertion() {
    let mut map: IdMap<char> = IdMap::new();
    for (key, value) in [(5, 'a'), (9, 'b'), (1, 'c')] {
        map.insert(key, value);
    }
    map.insert(9, 'B');
    assert_eq!(map.position(9), Some(1));
    *map.value_mut(0) = 'A';
    assert_eq!(map.swap_remove(5), Some('A'));
    assert_eq!(map.swap_remove(5), None);
    assert_eq!((map.at(0), map.at(1)), ((1, &'c'), (9, &'B')));
    assert!(map.contains(1) && !map.contains(5));
    assert_eq!(map.into_values(), vec!['c', 'B']);
    let mut texts: TextMap<u8> = TextMap::new();
    texts.insert(text("x"), 1);
    texts.insert(text("y"), 2);
    texts.insert(text("x"), 3);
    assert_eq!(texts.len(), 2);
    assert_eq!(texts.at(0), ("x", &3));
    assert_eq!(texts.position("y"), Some(1));
    assert_eq!(texts.position("z"), None);
    *texts.value_mut(1) = 7;
    assert_eq!(texts.at(1), ("y", &7));
}

#[test]
fn who_may_use_unstable_features() {
    let of = UnstableFeatures::from_environment_value;
    assert_eq!(of(None, None, true), UnstableFeatures::Disallow);
    assert_eq!(of(None, None, false), UnstableFeatures::Allow);
    assert_eq!(of(None, Some("1"), true), UnstableFeatures::Cheat);
    assert_eq!(of(Some("a"), Some("a,b"), true), UnstableFeatures::Cheat);
    assert_eq!(of(Some("c"), Some("a,b"), true), UnstableFeatures::Disallow);
    assert_eq!(of(Some("c"), Some("-1"), false), UnstableFeatures::Disallow);
    assert!(UnstableFeatures::Cheat.is_nightly_build());
    assert!(!UnstableFeatures::Disallow.is_nightly_build());
}

#[test]
fn issues_of_features() {
    let feature = |name, issue| Feature { name, since: text("1.0"), issue };
    let features = LangFeatures {
        unstable: vec![feature(1, Some(100)), feature(2, None)],
        accepted: vec![feature(3, Some(300))],
        removed: vec![feature(4, Some(400))],
    };
    assert_eq!(find_feature_issue(&features, 1, GateIssue::Language), Some(100));
    assert_eq!(find_feature_issue(&features, 2, GateIssue::Language), None);
    assert_eq!(find_feature_issue(&features, 3, GateIssue::Language), Some(300));
    assert_eq!(find_feature_issue(&features, 4, GateIssue::Language), Some(400));
    assert_eq!(find_feature_issue(&features, 9, GateIssue::Library(Some(7))), Some(7));
    assert_eq!(to_nonzero(Some(3)), Some(3));
}

#[test]
fn linking_falls_back_to_copying() {
    let start = LinkAction::HardLink;
    assert_eq!(link_or_copy(start, LinkEvent::Succeeded), LinkAction::Done(LinkOrCopy::Link));
    assert_eq!(link_or_copy(start, LinkEvent::OtherError), LinkAction::CopyBytes);
    let again = link_or_copy(start, LinkEvent::AlreadyExists);
    assert_eq!(again, LinkAction::RemoveAndHardLink);
    assert_eq!(link_or_copy(again, LinkEvent::Succeeded), LinkAction::Done(LinkOrCopy::Link));
    assert_eq!(link_or_copy(again, LinkEvent::AlreadyExists), LinkAction::CopyBytes);
    let copy = LinkAction::CopyBytes;
    assert_eq!(link_or_copy(copy, LinkEvent::Succeeded), LinkAction::Done(LinkOrCopy::Copy));
    assert_eq!(link_or_copy(copy, LinkEvent::OtherError), LinkAction::Failed);
}

#[test]
fn paths() {
    assert_eq!(try_canonicalize(Some(text("/a")), Some(text("/b"))), Some(text("/a")));
    assert_eq!(try_canonicalize(None, Some(text("/b"))), Some(text("/b")));
    assert_eq!(try_canonicalize(None, None), None);
    let mut builder = TempDirBuilder::new();
    builder.prefix("pre");
    builder.suffix("suf");
    assert_eq!(builder.parts(), ("pre", "suf"));
    assert_eq!(fix_windows_verbatim_for_gcc(&vec![47, 97]), vec![47, 97]);
    assert_eq!(path_to_c_string(&vec![47, 97]), vec![47, 97, 0]);
    assert_eq!(MaybeTempDir::new(text("/t"), false).into_removed(), Some(text("/t")));
    let kept = MaybeTempDir::new(text("/t"), true);
    assert_eq!(kept.as_path(), "/t");
    assert_eq!(kept.into_removed(), None);
}

#[test]
fn locks_cover_whole_files() {
    let request = LockRequest::new(true, false, true);
    assert_eq!(
        request,
        LockRequest { open: LockOpen::OpenRw, kind: LockKind::Write, wait: true, start: 0, len: 0 }
    );
    assert_eq!(LockRequest::new(false, true, false).open, LockOpen::CreateRw);
    assert!(error_unsupported(95, 95, 38));
    assert!(error_unsupported(38, 95, 38));
    assert!(!error_unsupported(11, 95, 38));
}

#[test]
fn variadic_functions_need_a_convention() {
    assert_eq!(check_c_variadic_abi(false, CVariadicStatus::NotSupported), None);
    assert_eq!(check_c_variadic_abi(true, CVariadicStatus::Stable), None);
    assert_eq!(
        check_c_variadic_abi(true, CVariadicStatus::NotSupported),
        Some(VariadicFault::IncompatibleConvention)
    );
    assert_eq!(
        check_c_variadic_abi(true, CVariadicStatus::Unstable(false)),
        Some(VariadicFault::FeatureDisabled)
    );
    assert_eq!(check_c_variadic_abi(true, CVariadicStatus::Unstable(true)), None);
    assert!(variadic_feature_message("sysv64").contains("sysv64"));
}

#[test]
fn checks_of_a_crate() {
    let plain = check_crate(false);
    let dumped = check_crate(true);
    assert_eq!(plain[0], CrateCheck::TypeWellFormedness);
    assert!(dumped.len() > plain.len());
    assert!(dumped.contains(&CrateCheck::DumpVariances));
    assert!(!plain.contains(&CrateCheck::DumpVariances));
    assert_eq!(dumped[dumped.len() - 1], CrateCheck::UnusedTraits);
    assert!(coherence_weight(&vec![10, 20]) >= coherence_weight(&vec![10]));
}

#[test]
fn checks_of_one_owner() {
    let facts = |kind| OwnerFacts {
        kind,
        requires_monomorphization: false,
        type_const: false,
        non_type_system_inline: false,
        typeck_child: false,
    };
    assert_eq!(
        checks_of_owner(facts(BodyKind::Static)),
        vec![
            OwnerCheck::EvalStaticInitializer,
            OwnerCheck::CheckStaticLinkSection,
            OwnerCheck::Typeck,
        ]
    );
    assert_eq!(checks_of_owner(facts(BodyKind::Const)), vec![OwnerCheck::EvalConst, OwnerCheck::Typeck]);
    assert_eq!(checks_of_owner(facts(BodyKind::Other)), vec![OwnerCheck::Typeck]);
}

#[test]
fn outlives_clauses_are_sorted() {
    let clauses = || vec![Clause { text: text("b") }, Clause { text: text("a") }];
    let notes = inferred_outlives(true, clauses()).unwrap();
    assert_eq!(notes[0].text, "a");
    assert_eq!(notes[1].text, "b");
    assert!(inferred_outlives(false, clauses()).is_none());
}

#[test]
fn each_step_is_adjusted_to_the_type_after_it() {
    let steps = vec![
        DerefStep { ty: 1, kind: AutoderefKind::Builtin },
        DerefStep { ty: 2, kind: AutoderefKind::Overloaded(Some(Some(true))) },
    ];
    let adjusted = adjust_steps(&steps, 9);
    assert_eq!(adjusted.len(), 2);
    assert_eq!((adjusted[0].target, adjusted[0].overloaded), (2, None));
    assert_eq!((adjusted[1].target, adjusted[1].overloaded), (9, Some(true)));
}
