//! What the plans of a session are for, said of what goes in and what comes out.

use vstd::prelude::*;

use crate::hir_analysis::adjust_steps;
use crate::hir_analysis::capped_sum;
use crate::hir_analysis::check_c_variadic_abi;
use crate::hir_analysis::check_crate;
use crate::hir_analysis::checks_of_owner;
use crate::hir_analysis::coherence_weight;
use crate::hir_analysis::coroutine_pass_weight;
use crate::hir_analysis::variadic_feature_message;
use crate::hir_analysis::Adjustment;
use crate::hir_analysis::AutoderefKind;
use crate::hir_analysis::BodyKind;
use crate::hir_analysis::CVariadicStatus;
use crate::hir_analysis::CrateCheck;
use crate::hir_analysis::DerefStep;
use crate::hir_analysis::OwnerCheck;
use crate::hir_analysis::OwnerFacts;
use crate::hir_analysis::VariadicFault;
use crate::interface::passes::analysis;
use crate::interface::passes::body_checks;
use crate::interface::passes::checks_of_body;
use crate::interface::passes::configure_and_expand;
use crate::interface::passes::emit_delayed_lints;
use crate::interface::passes::final_bodies;
use crate::interface::passes::final_bodies_before;
use crate::interface::passes::lints_before;
use crate::interface::passes::only_if;
use crate::interface::passes::parse;
use crate::interface::passes::Analysis;
use crate::interface::passes::AnalysisFacts;
use crate::interface::passes::BodyCheck;
use crate::interface::passes::BodyFacts;
use crate::interface::passes::DelayedAt;
use crate::interface::passes::ExpandFacts;
use crate::interface::passes::ExpandStep;
use crate::interface::passes::ParseStep;

verus! {

/// The steps come in the order of their places, each once, and their places are in `lo..hi`.
pub open spec fn ordered<S>(steps: Seq<S>, place: spec_fn(S) -> int, lo: int, hi: int) -> bool {
    &&& forall|i: int| 0 <= i < steps.len() ==> lo <= place(#[trigger] steps[i]) < hi
    &&& forall|i: int, j: int|
        0 <= i < j < steps.len() ==> place(#[trigger] steps[i]) < place(#[trigger] steps[j])
}

/// Lists whose places follow one another are ordered together, and hold what either holds.
pub proof fn lemma_ordered_join<S>(
    a: Seq<S>,
    b: Seq<S>,
    place: spec_fn(S) -> int,
    lo: int,
    mid: int,
    hi: int,
    s: S,
)
    requires
        ordered(a, place, lo, mid),
        ordered(b, place, mid, hi),
        lo <= mid <= hi,
    ensures
        ordered(a + b, place, lo, hi),
        (a + b).contains(s) <==> a.contains(s) || b.contains(s),
{
    let both = a + b;
    assert forall|i: int| 0 <= i < both.len() implies lo <= place(#[trigger] both[i]) < hi by {
        if i < a.len() {
            assert(both[i] == a[i]);
        } else {
            assert(both[i] == b[i - a.len()]);
        }
    }
    assert forall|i: int, j: int| 0 <= i < j < both.len() implies place(#[trigger] both[i])
        < place(#[trigger] both[j]) by {
        if i < a.len() {
            assert(both[i] == a[i]);
        } else {
            assert(both[i] == b[i - a.len()]);
        }
        if j < a.len() {
            assert(both[j] == a[j]);
        } else {
            assert(both[j] == b[j - a.len()]);
        }
    }
    if a.contains(s) {
        let i = choose|i: int| 0 <= i < a.len() && a[i] == s;
        assert(both[i] == s);
    }
    if b.contains(s) {
        let i = choose|i: int| 0 <= i < b.len() && b[i] == s;
        assert(both[a.len() + i] == s);
    }
    if both.contains(s) {
        let i = choose|i: int| 0 <= i < both.len() && both[i] == s;
        if i < a.len() {
            assert(a[i] == s);
        } else {
            assert(b[i - a.len()] == s);
        }
    }
}

/// One step that applies or not.
pub proof fn lemma_ordered_one<S>(
    applies: bool,
    step: S,
    place: spec_fn(S) -> int,
    at: int,
    s: S,
)
    requires
        place(step) == at,
    ensures
        ordered(only_if(applies, seq![step]), place, at, at + 1),
        only_if(applies, seq![step]).contains(s) <==> applies && s == step,
{
    let list = only_if(applies, seq![step]);
    if applies {
        assert(list[0] == step);
    }
}

/// What is ordered occurs once.
pub proof fn lemma_ordered_occurs_once<S>(
    steps: Seq<S>,
    place: spec_fn(S) -> int,
    lo: int,
    hi: int,
)
    requires
        ordered(steps, place, lo, hi),
    ensures
        steps.no_duplicates(),
{
    assert forall|i: int, j: int|
        0 <= i < steps.len() && 0 <= j < steps.len() && i != j implies steps[i] != steps[j] by {
        if i < j {
            assert(place(steps[i]) < place(steps[j]));
        } else {
            assert(place(steps[j]) < place(steps[i]));
        }
    }
}

/// Where an analysis stands among all of them.
pub open spec fn analysis_place(a: Analysis) -> int {
    match a {
        Analysis::PrintHirStats => 0,
        Analysis::ValidateHirIds => 1,
        Analysis::HirCrateItems => 2,
        Analysis::CheckDelegationTargets => 3,
        Analysis::EntryPointChecks => 4,
        Analysis::ExportableItemsAndModuleChecks => 5,
        Analysis::LimitsCheck => 6,
        Analysis::EmitDelayedLints => 7,
        Analysis::TypeCheckCrate => 8,
        Analysis::FreezeDefinitions => 9,
        Analysis::BorrowCheckBodies => 10,
        Analysis::LayoutTests => 11,
        Analysis::AbiTests => 12,
        Analysis::AbortIfHardErrors => 13,
        Analysis::EffectiveVisibilities => 14,
        Analysis::CheckPrivateInPublic => 15,
        Analysis::CheckDeadCode => 16,
        Analysis::CheckLints => 17,
        Analysis::CheckClashingDeclarations => 18,
        Analysis::CheckPrivacy => 19,
        Analysis::CheckExpectations => 20,
        Analysis::CollectDiagnosticItems => 21,
        Analysis::CollectCanonicalSymbols => 22,
        Analysis::ComputeFinalBodies => 23,
    }
}

/// Every analysis runs, whatever the session, but for four that it asks for or not; each runs once,
/// and they run in one order: a body is borrow checked after types are checked and definitions are
/// frozen, and before errors end the rest.
pub proof fn law_every_analysis_runs_once(facts: AnalysisFacts, plan: Vec<Analysis>, a: Analysis)
    requires
        call_ensures(analysis, (facts,), plan),
    ensures
        plan@.contains(a) <==> (match a {
            Analysis::PrintHirStats => facts.input_stats,
            Analysis::ValidateHirIds => facts.debug_assertions,
            Analysis::CheckLints => !facts.lints_capped_to_allow,
            Analysis::ComputeFinalBodies => facts.validate_mir,
            _ => true,
        }),
        ordered(plan@, |x: Analysis| analysis_place(x), 0, 24),
        plan@.no_duplicates(),
{
    let place = |x: Analysis| analysis_place(x);
    let stats = only_if(facts.input_stats, seq![Analysis::PrintHirStats]);
    let ids = only_if(facts.debug_assertions, seq![Analysis::ValidateHirIds]);
    let always = seq![
        Analysis::HirCrateItems,
        Analysis::CheckDelegationTargets,
        Analysis::EntryPointChecks,
        Analysis::ExportableItemsAndModuleChecks,
        Analysis::LimitsCheck,
        Analysis::EmitDelayedLints,
        Analysis::TypeCheckCrate,
        Analysis::FreezeDefinitions,
        Analysis::BorrowCheckBodies,
        Analysis::LayoutTests,
        Analysis::AbiTests,
    ];
    let first = seq![
        Analysis::AbortIfHardErrors,
        Analysis::EffectiveVisibilities,
        Analysis::CheckPrivateInPublic,
        Analysis::CheckDeadCode,
    ];
    let lints = only_if(!facts.lints_capped_to_allow, seq![Analysis::CheckLints]);
    let then_on = seq![
        Analysis::CheckClashingDeclarations,
        Analysis::CheckPrivacy,
        Analysis::CheckExpectations,
        Analysis::CollectDiagnosticItems,
        Analysis::CollectCanonicalSymbols,
    ];
    let bodies = only_if(facts.validate_mir, seq![Analysis::ComputeFinalBodies]);
    lemma_ordered_one(facts.input_stats, Analysis::PrintHirStats, place, 0, a);
    lemma_ordered_one(facts.debug_assertions, Analysis::ValidateHirIds, place, 1, a);
    lemma_ordered_one(!facts.lints_capped_to_allow, Analysis::CheckLints, place, 17, a);
    lemma_ordered_one(facts.validate_mir, Analysis::ComputeFinalBodies, place, 23, a);
    lemma_the_fixed_analyses(a);
    assert(ordered(always, place, 2, 13));
    assert(ordered(first, place, 13, 17));
    assert(ordered(then_on, place, 18, 23));
    lemma_ordered_join(stats, ids, place, 0, 1, 2, a);
    lemma_ordered_join(stats + ids, always, place, 0, 2, 13, a);
    lemma_ordered_join(first, lints, place, 13, 17, 18, a);
    lemma_ordered_join(first + lints, then_on, place, 13, 18, 23, a);
    lemma_ordered_join(first + lints + then_on, bodies, place, 13, 23, 24, a);
    lemma_ordered_join(
        stats + ids + always,
        first + lints + then_on + bodies,
        place,
        0,
        13,
        24,
        a,
    );
    assert(plan@ =~= stats + ids + always + (first + lints + then_on + bodies));
    lemma_ordered_occurs_once(plan@, place, 0, 24);
}

proof fn lemma_the_fixed_analyses(a: Analysis)
    ensures
        seq![
            Analysis::HirCrateItems,
            Analysis::CheckDelegationTargets,
            Analysis::EntryPointChecks,
            Analysis::ExportableItemsAndModuleChecks,
            Analysis::LimitsCheck,
            Analysis::EmitDelayedLints,
            Analysis::TypeCheckCrate,
            Analysis::FreezeDefinitions,
            Analysis::BorrowCheckBodies,
            Analysis::LayoutTests,
            Analysis::AbiTests,
        ].contains(a) <==> 2 <= analysis_place(a) < 13,
        seq![
            Analysis::AbortIfHardErrors,
            Analysis::EffectiveVisibilities,
            Analysis::CheckPrivateInPublic,
            Analysis::CheckDeadCode,
        ].contains(a) <==> 13 <= analysis_place(a) < 17,
        seq![
            Analysis::CheckClashingDeclarations,
            Analysis::CheckPrivacy,
            Analysis::CheckExpectations,
            Analysis::CollectDiagnosticItems,
            Analysis::CollectCanonicalSymbols,
        ].contains(a) <==> 18 <= analysis_place(a) < 23,
{
    let p = analysis_place(a);
    let always = seq![
        Analysis::HirCrateItems,
        Analysis::CheckDelegationTargets,
        Analysis::EntryPointChecks,
        Analysis::ExportableItemsAndModuleChecks,
        Analysis::LimitsCheck,
        Analysis::EmitDelayedLints,
        Analysis::TypeCheckCrate,
        Analysis::FreezeDefinitions,
        Analysis::BorrowCheckBodies,
        Analysis::LayoutTests,
        Analysis::AbiTests,
    ];
    if 2 <= p < 13 {
        assert(always[p - 2] == a);
    }
    let first = seq![
        Analysis::AbortIfHardErrors,
        Analysis::EffectiveVisibilities,
        Analysis::CheckPrivateInPublic,
        Analysis::CheckDeadCode,
    ];
    if 13 <= p < 17 {
        assert(first[p - 13] == a);
    }
    let then_on = seq![
        Analysis::CheckClashingDeclarations,
        Analysis::CheckPrivacy,
        Analysis::CheckExpectations,
        Analysis::CollectDiagnosticItems,
        Analysis::CollectCanonicalSymbols,
    ];
    if 18 <= p < 23 {
        assert(then_on[p - 18] == a);
    }
}

/// Where a step stands in expanding a crate. Giving up comes after the macros, or last.
pub open spec fn expand_place(s: ExpandStep) -> int {
    match s {
        ExpandStep::PreExpansionLints => 0,
        ExpandStep::RegisterBuiltinMacros => 1,
        ExpandStep::InjectStandardLibrary => 2,
        ExpandStep::ExtendSearchPath => 3,
        ExpandStep::ExpandCrate => 4,
        ExpandStep::AbortIfErrors => 5,
        ExpandStep::BufferEarlyLints => 6,
        ExpandStep::CheckUnusedMacros => 7,
        ExpandStep::RestoreSearchPath => 8,
        ExpandStep::PrintMacroStats => 9,
        ExpandStep::InjectTestHarness => 10,
        ExpandStep::ValidateAst => 11,
        ExpandStep::CheckCrateTypes => 12,
        ExpandStep::InjectMacroHarness => 13,
        ExpandStep::ResolveCrate => 14,
        ExpandStep::ReportIncompatibilities => 15,
    }
}

/// An expansion goes through all of its steps in one order, each once. A host whose search path is
/// extended has it restored; errors in macros end it right behind the macros, and one that was cut
/// short gives up instead of going on.
pub proof fn law_an_expansion_takes_every_step(
    facts: ExpandFacts,
    steps: Vec<ExpandStep>,
    s: ExpandStep,
)
    requires
        call_ensures(configure_and_expand, (facts,), steps),
    ensures
        !facts.reduced_recursion_limit ==> {
            &&& ordered(steps@, |x: ExpandStep| expand_place(x), 0, 16)
            &&& steps@.no_duplicates()
            &&& steps@.contains(s) <==> (match s {
                ExpandStep::ExtendSearchPath | ExpandStep::RestoreSearchPath => facts.windows,
                ExpandStep::AbortIfErrors => facts.macro_errors,
                ExpandStep::PrintMacroStats => facts.macro_stats,
                _ => true,
            })
        },
        facts.reduced_recursion_limit ==> {
            &&& steps@.len() > 0 && steps@.last() == ExpandStep::AbortIfErrors
            &&& ordered(steps@.drop_last(), |x: ExpandStep| expand_place(x), 0, 8)
            &&& steps@.drop_last().contains(s) <==> (match s {
                ExpandStep::ExtendSearchPath => facts.windows,
                ExpandStep::AbortIfErrors => facts.macro_errors,
                _ => expand_place(s) < 8,
            })
        },
{
    let place = |x: ExpandStep| expand_place(x);
    let start = seq![
        ExpandStep::PreExpansionLints,
        ExpandStep::RegisterBuiltinMacros,
        ExpandStep::InjectStandardLibrary,
    ];
    let extend = only_if(facts.windows, seq![ExpandStep::ExtendSearchPath]);
    let macros = seq![ExpandStep::ExpandCrate];
    let abort = only_if(facts.macro_errors, seq![ExpandStep::AbortIfErrors]);
    let lints = seq![ExpandStep::BufferEarlyLints, ExpandStep::CheckUnusedMacros];
    let restore = only_if(facts.windows, seq![ExpandStep::RestoreSearchPath]);
    let stats = only_if(facts.macro_stats, seq![ExpandStep::PrintMacroStats]);
    let end = seq![
        ExpandStep::InjectTestHarness,
        ExpandStep::ValidateAst,
        ExpandStep::CheckCrateTypes,
        ExpandStep::InjectMacroHarness,
        ExpandStep::ResolveCrate,
        ExpandStep::ReportIncompatibilities,
    ];
    let p = expand_place(s);
    if 0 <= p < 3 {
        assert(start[p] == s);
    }
    if p == 4 {
        assert(macros[0] == s);
    }
    if 6 <= p < 8 {
        assert(lints[p - 6] == s);
    }
    if 10 <= p < 16 {
        assert(end[p - 10] == s);
    }
    lemma_ordered_one(facts.windows, ExpandStep::ExtendSearchPath, place, 3, s);
    lemma_ordered_one(facts.macro_errors, ExpandStep::AbortIfErrors, place, 5, s);
    lemma_ordered_one(facts.windows, ExpandStep::RestoreSearchPath, place, 8, s);
    lemma_ordered_one(facts.macro_stats, ExpandStep::PrintMacroStats, place, 9, s);
    assert(ordered(start, place, 0, 3) && ordered(macros, place, 4, 5) && ordered(
        lints,
        place,
        6,
        8,
    ) && ordered(end, place, 10, 16));
    lemma_ordered_join(start, extend, place, 0, 3, 4, s);
    lemma_ordered_join(start + extend, macros, place, 0, 4, 5, s);
    lemma_ordered_join(start + extend + macros, abort, place, 0, 5, 6, s);
    let front = start + extend + macros + abort + lints;
    lemma_ordered_join(start + extend + macros + abort, lints, place, 0, 6, 8, s);
    lemma_ordered_join(front, restore, place, 0, 8, 9, s);
    lemma_ordered_join(front + restore, stats, place, 0, 9, 10, s);
    lemma_ordered_join(front + restore + stats, end, place, 0, 10, 16, s);
    if facts.reduced_recursion_limit {
        assert(steps@.drop_last() =~= front);
    } else {
        assert(steps@ =~= front + restore + stats + end);
        lemma_ordered_occurs_once(steps@, place, 0, 16);
    }
}

/// Parsing parses what there is to parse, and then puts the attributes in, or gives up.
pub proof fn law_parsing_ends_in_attributes_or_an_error(
    input_is_file: bool,
    fails: bool,
    steps: Vec<ParseStep>,
)
    requires
        call_ensures(parse, (input_is_file, fails), steps),
    ensures
        steps@.len() == 2,
        steps@[0] == ParseStep::ParseFile <==> input_is_file,
        steps@[0] == ParseStep::ParseString <==> !input_is_file,
        steps@[1] == ParseStep::EmitAndRaise <==> fails,
        steps@[1] == ParseStep::InjectAttributes <==> !fails,
{
}

/// Where a check of a body stands.
pub open spec fn body_place(c: BodyCheck) -> int {
    match c {
        BodyCheck::Unsafety => 0,
        BodyCheck::Borrowck => 1,
        BodyCheck::Transmutes => 2,
        BodyCheck::Offloads => 3,
        BodyCheck::FfiUnwindCalls => 4,
        BodyCheck::Liveness => 5,
        BodyCheck::ConstCheckedDrops => 6,
        BodyCheck::CoroutineLayout => 7,
    }
}

/// Which checks a body gets, and in which order. A body that stands for itself is checked for
/// unsafety and, unless it is a trivial constant, borrow checked.
pub proof fn law_every_body_is_checked(facts: BodyFacts, checks: Vec<BodyCheck>, c: BodyCheck)
    requires
        call_ensures(checks_of_body, (facts,), checks),
    ensures
        checks@.contains(c) <==> (match c {
            BodyCheck::Unsafety => !facts.typeck_child,
            BodyCheck::Borrowck | BodyCheck::Transmutes => !facts.typeck_child
                && !facts.trivial_const,
            BodyCheck::Offloads => !facts.typeck_child && !facts.trivial_const && facts.offload,
            BodyCheck::FfiUnwindCalls | BodyCheck::Liveness => !facts.trivial_const,
            BodyCheck::ConstCheckedDrops => !facts.trivial_const && (facts.should_codegen
                || facts.const_context),
            BodyCheck::CoroutineLayout => !facts.trivial_const && facts.coroutine
                && !facts.async_drop_in_place,
        }),
        ordered(checks@, |x: BodyCheck| body_place(x), 0, 8),
        checks@.no_duplicates(),
{
    let place = |x: BodyCheck| body_place(x);
    let own = !facts.typeck_child;
    let looked_at = !facts.trivial_const;
    let a = only_if(own, seq![BodyCheck::Unsafety]);
    let b = only_if(own && looked_at, seq![BodyCheck::Borrowck]);
    let d = only_if(own && looked_at, seq![BodyCheck::Transmutes]);
    let e = only_if(own && looked_at && facts.offload, seq![BodyCheck::Offloads]);
    let f = only_if(looked_at, seq![BodyCheck::FfiUnwindCalls]);
    let g = only_if(looked_at, seq![BodyCheck::Liveness]);
    let drops = looked_at && (facts.should_codegen || facts.const_context);
    let h = only_if(drops, seq![BodyCheck::ConstCheckedDrops]);
    let layout = looked_at && facts.coroutine && !facts.async_drop_in_place;
    let k = only_if(layout, seq![BodyCheck::CoroutineLayout]);
    lemma_ordered_one(own, BodyCheck::Unsafety, place, 0, c);
    lemma_ordered_one(own && looked_at, BodyCheck::Borrowck, place, 1, c);
    lemma_ordered_one(own && looked_at, BodyCheck::Transmutes, place, 2, c);
    lemma_ordered_one(own && looked_at && facts.offload, BodyCheck::Offloads, place, 3, c);
    lemma_ordered_one(looked_at, BodyCheck::FfiUnwindCalls, place, 4, c);
    lemma_ordered_one(looked_at, BodyCheck::Liveness, place, 5, c);
    lemma_ordered_one(drops, BodyCheck::ConstCheckedDrops, place, 6, c);
    lemma_ordered_one(layout, BodyCheck::CoroutineLayout, place, 7, c);
    lemma_ordered_join(a, b, place, 0, 1, 2, c);
    lemma_ordered_join(a + b, d, place, 0, 2, 3, c);
    lemma_ordered_join(a + b + d, e, place, 0, 3, 4, c);
    lemma_ordered_join(a + b + d + e, f, place, 0, 4, 5, c);
    lemma_ordered_join(a + b + d + e + f, g, place, 0, 5, 6, c);
    lemma_ordered_join(a + b + d + e + f + g, h, place, 0, 6, 7, c);
    lemma_ordered_join(a + b + d + e + f + g + h, k, place, 0, 7, 8, c);
    lemma_body_blocks(facts);
    lemma_ordered_occurs_once(checks@, place, 0, 8);
}

#[verifier::rlimit(60)]
#[verifier::spinoff_prover]
proof fn lemma_body_blocks(facts: BodyFacts)
    ensures
        ({
            let own = !facts.typeck_child;
            let looked_at = !facts.trivial_const;
            let drops = looked_at && (facts.should_codegen || facts.const_context);
            let layout = looked_at && facts.coroutine && !facts.async_drop_in_place;
            body_checks(facts) == only_if(own, seq![BodyCheck::Unsafety]) + only_if(
                own && looked_at,
                seq![BodyCheck::Borrowck],
            ) + only_if(own && looked_at, seq![BodyCheck::Transmutes]) + only_if(
                own && looked_at && facts.offload,
                seq![BodyCheck::Offloads],
            ) + only_if(looked_at, seq![BodyCheck::FfiUnwindCalls]) + only_if(
                looked_at,
                seq![BodyCheck::Liveness],
            ) + only_if(drops, seq![BodyCheck::ConstCheckedDrops]) + only_if(
                layout,
                seq![BodyCheck::CoroutineLayout],
            )
        }),
{
    let own = !facts.typeck_child;
    let looked_at = !facts.trivial_const;
    let drops = looked_at && (facts.should_codegen || facts.const_context);
    let layout = looked_at && facts.coroutine && !facts.async_drop_in_place;
    let a = only_if(own, seq![BodyCheck::Unsafety]);
    let b = only_if(own && looked_at, seq![BodyCheck::Borrowck]);
    let d = only_if(own && looked_at, seq![BodyCheck::Transmutes]);
    let e = only_if(own && looked_at && facts.offload, seq![BodyCheck::Offloads]);
    let f = only_if(looked_at, seq![BodyCheck::FfiUnwindCalls]);
    let g = only_if(looked_at, seq![BodyCheck::Liveness]);
    let h = only_if(drops, seq![BodyCheck::ConstCheckedDrops]);
    let k = only_if(layout, seq![BodyCheck::CoroutineLayout]);
    if !looked_at {
        assert(body_checks(facts) =~= a + b + d + e + f + g + h + k);
    } else {
        let bd = only_if(own, seq![BodyCheck::Borrowck, BodyCheck::Transmutes]);
        let fg = seq![BodyCheck::FfiUnwindCalls, BodyCheck::Liveness];
        assert(bd =~= b + d);
        assert(fg =~= f + g);
        assert(body_checks(facts) == a + (bd + e + fg + h + k));
        assert(a + (bd + e + fg + h + k) =~= a + bd + e + fg + h + k);
        assert(a + bd + e + fg + h + k =~= a + b + d + e + f + g + h + k);
    }
}

/// The bodies whose final form is computed are exactly those that are not trivial constants, in
/// order.
pub proof fn law_final_bodies_are_the_real_ones(
    trivial_const: &Vec<bool>,
    bodies: Vec<usize>,
    b: usize,
)
    requires
        trivial_const@.len() <= usize::MAX,
        call_ensures(final_bodies, (trivial_const,), bodies),
    ensures
        bodies@.contains(b) <==> b < trivial_const@.len() && !trivial_const@[b as int],
        forall|i: int, j: int|
            0 <= i < j < bodies@.len() ==> #[trigger] bodies@[i] < #[trigger] bodies@[j],
{
    lemma_final_bodies(trivial_const@, trivial_const@.len() as int, b);
}

proof fn lemma_final_bodies(trivial_const: Seq<bool>, n: int, b: usize)
    requires
        0 <= n <= trivial_const.len(),
        n <= usize::MAX,
    ensures
        ({
            let bodies = final_bodies_before(trivial_const, n);
            &&& bodies.contains(b) <==> b < n && !trivial_const[b as int]
            &&& forall|i: int| 0 <= i < bodies.len() ==> (#[trigger] bodies[i]) < n
            &&& forall|i: int, j: int|
                0 <= i < j < bodies.len() ==> #[trigger] bodies[i] < #[trigger] bodies[j]
        }),
    decreases n,
{
    if n > 0 {
        lemma_final_bodies(trivial_const, n - 1, b);
        let before = final_bodies_before(trivial_const, n - 1);
        let bodies = final_bodies_before(trivial_const, n);
        if before.contains(b) {
            let i = choose|i: int| 0 <= i < before.len() && before[i] == b;
            assert(bodies[i] == b);
        }
        if b == n - 1 && !trivial_const[b as int] {
            assert(bodies[before.len() as int] == b);
        }
        if bodies.contains(b) {
            let i = choose|i: int| 0 <= i < bodies.len() && bodies[i] == b;
            if i < before.len() {
                assert(before[i] == b);
            }
        }
    }
}

/// Delayed lints come out all, once each, owner by owner and each owner's in order.
pub proof fn law_delayed_lints_come_out_in_order(
    counts: &Vec<Option<usize>>,
    order: Vec<DelayedAt>,
    at: DelayedAt,
)
    requires
        counts@.len() <= usize::MAX,
        call_ensures(emit_delayed_lints, (counts,), order),
    ensures
        order@.contains(at) <==> at.0 < counts@.len() && counts@[at.0 as int] is Some && at.1
            < counts@[at.0 as int]->0,
        forall|i: int, j: int|
            0 <= i < j < order@.len() ==> (#[trigger] order@[i]).0 < (#[trigger] order@[j]).0 || (
            order@[i].0 == order@[j].0 && order@[i].1 < order@[j].1),
{
    lemma_lints(counts@, counts@.len() as int, at);
}

proof fn lemma_lints(counts: Seq<Option<usize>>, n: int, at: DelayedAt)
    requires
        0 <= n <= counts.len(),
        n <= usize::MAX,
    ensures
        ({
            let order = lints_before(counts, n);
            &&& order.contains(at) <==> at.0 < n && counts[at.0 as int] is Some && at.1
                < counts[at.0 as int]->0
            &&& forall|i: int| 0 <= i < order.len() ==> (#[trigger] order[i]).0 < n
            &&& forall|i: int, j: int|
                0 <= i < j < order.len() ==> (#[trigger] order[i]).0 < (#[trigger] order[j]).0 || (
                order[i].0 == order[j].0 && order[i].1 < order[j].1)
        }),
    decreases n,
{
    if n > 0 {
        lemma_lints(counts, n - 1, at);
        let before = lints_before(counts, n - 1);
        let order = lints_before(counts, n);
        let k = before.len() as int;
        if before.contains(at) {
            let i = choose|i: int| 0 <= i < before.len() && before[i] == at;
            assert(order[i] == at);
        }
        if at.0 == n - 1 && counts[n - 1] is Some && at.1 < counts[n - 1]->0 {
            assert(order[k + at.1] == at);
        }
        if order.contains(at) {
            let i = choose|i: int| 0 <= i < order.len() && order[i] == at;
            if i < k {
                assert(before[i] == at);
            }
        }
        assert forall|i: int, j: int| 0 <= i < j < order.len() implies (#[trigger] order[i]).0 < (
        #[trigger] order[j]).0 || (order[i].0 == order[j].0 && order[i].1 < order[j].1) by {
            if j < k {
                assert(before[i] == order[i] && before[j] == order[j]);
            } else if i < k {
                assert(before[i] == order[i]);
            }
        }
        assert forall|i: int| 0 <= i < order.len() implies (#[trigger] order[i]).0 < n by {
            if i < k {
                assert(before[i] == order[i]);
            }
        }
    }
}

/// Where a check of a crate stands.
pub open spec fn crate_place(c: CrateCheck) -> int {
    match c {
        CrateCheck::TypeWellFormedness => 0,
        CrateCheck::TraitCoherence => 1,
        CrateCheck::InherentImplsValidity => 2,
        CrateCheck::InherentImplsOverlap => 3,
        CrateCheck::TypeCheckBodies => 4,
        CrateCheck::CoroutineBodies => 5,
        CrateCheck::DumpClausesAndItemBounds => 6,
        CrateCheck::DumpDefParents => 7,
        CrateCheck::DumpGenerics => 8,
        CrateCheck::DumpObjectLifetimeDefaults => 9,
        CrateCheck::DumpOpaqueHiddenTypes => 10,
        CrateCheck::DumpVtables => 11,
        CrateCheck::DumpInferredOutlives => 12,
        CrateCheck::DumpVariances => 13,
        CrateCheck::UnusedTraits => 14,
    }
}

/// A crate gets every check, once and in one order; only what is dumped depends on whether the code
/// asks for it.
pub proof fn law_a_crate_gets_every_check(
    rustc_attrs: bool,
    checks: Vec<CrateCheck>,
    c: CrateCheck,
)
    requires
        call_ensures(check_crate, (rustc_attrs,), checks),
    ensures
        checks@.contains(c) <==> (6 <= crate_place(c) < 14 ==> rustc_attrs),
        ordered(checks@, |x: CrateCheck| crate_place(x), 0, 15),
        checks@.no_duplicates(),
{
    let place = |x: CrateCheck| crate_place(x);
    let first = seq![
        CrateCheck::TypeWellFormedness,
        CrateCheck::TraitCoherence,
        CrateCheck::InherentImplsValidity,
        CrateCheck::InherentImplsOverlap,
        CrateCheck::TypeCheckBodies,
        CrateCheck::CoroutineBodies,
    ];
    let dumps = seq![
        CrateCheck::DumpClausesAndItemBounds,
        CrateCheck::DumpDefParents,
        CrateCheck::DumpGenerics,
        CrateCheck::DumpObjectLifetimeDefaults,
        CrateCheck::DumpOpaqueHiddenTypes,
        CrateCheck::DumpVtables,
        CrateCheck::DumpInferredOutlives,
        CrateCheck::DumpVariances,
    ];
    let last = seq![CrateCheck::UnusedTraits];
    let p = crate_place(c);
    if 0 <= p < 6 {
        assert(first[p] == c);
    }
    if 6 <= p < 14 {
        assert(dumps[p - 6] == c);
    }
    if p == 14 {
        assert(last[0] == c);
    }
    let asked = only_if(rustc_attrs, dumps);
    assert(ordered(first, place, 0, 6) && ordered(dumps, place, 6, 14) && ordered(
        last,
        place,
        14,
        15,
    ));
    assert(ordered(asked, place, 6, 14));
    lemma_ordered_join(first, asked, place, 0, 6, 14, c);
    lemma_ordered_join(first + asked, last, place, 0, 14, 15, c);
    assert(checks@ =~= first + asked + last);
    lemma_ordered_occurs_once(checks@, place, 0, 15);
}

/// What is done with an item that has a body: a static is evaluated, and so is a constant that can
/// be; a body is type checked unless its parent's check covers it or its type is given by what it
/// is part of.
pub proof fn law_every_owner_is_checked(
    facts: OwnerFacts,
    checks: Vec<OwnerCheck>,
    c: OwnerCheck,
)
    requires
        call_ensures(checks_of_owner, (facts,), checks),
    ensures
        checks@.contains(c) <==> (match c {
            OwnerCheck::EvalStaticInitializer | OwnerCheck::CheckStaticLinkSection => facts.kind
                == BodyKind::Static,
            OwnerCheck::EvalConst => facts.kind == BodyKind::Const
                && !facts.requires_monomorphization && !facts.type_const,
            OwnerCheck::Typeck => !facts.typeck_child && (facts.kind != BodyKind::AnonConst
                || facts.non_type_system_inline),
        }),
        forall|i: int|
            0 <= i < checks@.len() && #[trigger] checks@[i] == OwnerCheck::Typeck ==> i
                == checks@.len() - 1,
        facts.kind == BodyKind::Static ==> checks@[0] == OwnerCheck::EvalStaticInitializer
            && checks@[1] == OwnerCheck::CheckStaticLinkSection,
        checks@.no_duplicates(),
{
    let all = checks@;
    let evals = only_if(
        facts.kind == BodyKind::Static,
        seq![OwnerCheck::EvalStaticInitializer, OwnerCheck::CheckStaticLinkSection],
    );
    let consts = only_if(
        facts.kind == BodyKind::Const && !facts.requires_monomorphization && !facts.type_const,
        seq![OwnerCheck::EvalConst],
    );
    let own = only_if(
        !(facts.kind == BodyKind::AnonConst && !facts.non_type_system_inline)
            && !facts.typeck_child,
        seq![OwnerCheck::Typeck],
    );
    assert(all == evals + consts + own);
    if facts.kind == BodyKind::Static {
        assert(all[0] == OwnerCheck::EvalStaticInitializer);
        assert(all[1] == OwnerCheck::CheckStaticLinkSection);
    }
    if consts.len() > 0 {
        assert(all[0] == OwnerCheck::EvalConst);
    }
    if own.len() > 0 {
        assert(all[all.len() - 1] == OwnerCheck::Typeck);
    }
}

/// A function with a variable number of arguments is at fault exactly if its calling convention
/// cannot have one, or only with a feature that is off.
pub proof fn law_a_variadic_function_needs_its_convention(
    c_variadic: bool,
    status: CVariadicStatus,
    fault: Option<VariadicFault>,
)
    requires
        call_ensures(check_c_variadic_abi, (c_variadic, status), fault),
    ensures
        fault == Some(VariadicFault::IncompatibleConvention) <==> c_variadic && status
            == CVariadicStatus::NotSupported,
        fault == Some(VariadicFault::FeatureDisabled) <==> c_variadic && status
            == CVariadicStatus::Unstable(false),
        fault is None <==> !c_variadic || status == CVariadicStatus::Stable || status
            == CVariadicStatus::Unstable(true),
{
}

/// The message names the calling convention.
pub proof fn law_the_convention_is_named(abi: &str, text: String)
    requires
        call_ensures(variadic_feature_message, (abi,), text),
    ensures
        text@ == "C-variadic functions with the "@ + abi@ + " calling convention are unstable"@,
{
}

/// The sum of numbers.
pub open spec fn sum_of(weights: Seq<u32>) -> nat
    decreases weights.len(),
{
    if weights.len() == 0 {
        0
    } else {
        weights[0] as nat + sum_of(weights.skip(1))
    }
}

proof fn lemma_sum_of(weights: Seq<u32>)
    requires
        weights.len() > 0,
    ensures
        sum_of(weights) == sum_of(weights.drop_last()) + weights.last(),
    decreases weights.len(),
{
    if weights.len() > 1 {
        lemma_sum_of(weights.skip(1));
        assert(weights.skip(1).drop_last() =~= weights.drop_last().skip(1));
        assert(weights.skip(1).last() == weights.last());
        assert(weights.drop_last()[0] == weights[0]);
    } else {
        assert(weights.skip(1) =~= weights.drop_last());
    }
}

/// The coherence check of a trait weighs as much as its implementations together, as far as that
/// can be written down; the second pass over a body weighs one.
pub proof fn law_a_trait_weighs_as_much_as_its_impls(impls: &Vec<u32>, weight: u32, pass: u32)
    requires
        call_ensures(coherence_weight, (impls,), weight),
        call_ensures(coroutine_pass_weight, (), pass),
    ensures
        weight == (if sum_of(impls@) <= u32::MAX {
            sum_of(impls@)
        } else {
            u32::MAX as nat
        }),
        pass == 1,
{
    lemma_capped(impls@);
}

proof fn lemma_capped(weights: Seq<u32>)
    ensures
        capped_sum(weights) == (if sum_of(weights) <= u32::MAX {
            sum_of(weights)
        } else {
            u32::MAX as nat
        }),
    decreases weights.len(),
{
    if weights.len() > 0 {
        lemma_capped(weights.drop_last());
        lemma_sum_of(weights);
    }
}

/// A chain of dereferences is adjusted step by step: each step leads to the type that the next one
/// starts from, and the last to the final type; it is by a method exactly if the step was by one
/// that gives a reference, mutable as that is.
pub proof fn law_a_chain_of_dereferences_leads_to_its_end(
    steps: &Vec<DerefStep>,
    final_ty: u32,
    adjusted: Vec<Adjustment>,
    i: int,
)
    requires
        call_ensures(adjust_steps, (steps, final_ty), adjusted),
        0 <= i < steps@.len(),
    ensures
        adjusted@.len() == steps@.len(),
        i + 1 < steps@.len() ==> adjusted@[i].target == steps@[i + 1].ty,
        i + 1 == steps@.len() ==> adjusted@[i].target == final_ty,
        forall|mutable: bool|
            adjusted@[i].overloaded == Some(mutable) <==> #[trigger] steps@[i].kind
                == AutoderefKind::Overloaded(Some(Some(mutable))),
        adjusted@[i].overloaded is None <==> steps@[i].kind == AutoderefKind::Builtin
            || steps@[i].kind == AutoderefKind::Overloaded(None) || steps@[i].kind
            == AutoderefKind::Overloaded(Some(None)),
{
}

} // verus!
