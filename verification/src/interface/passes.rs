//! Which passes run over a crate, and in which order.
//!
//! The passes themselves are queries of the compiler. What is decided here is which of them run,
//! given what the session asks for and what is known of each item.

use vstd::prelude::*;

use crate::interface::crate_info::collects;
use crate::interface::crate_info::collect_crate_types;
use crate::interface::crate_info::CrateType;
use crate::interface::crate_info::CrateTypes;
use crate::interface::crate_info::TypeOptions;

verus! {

/// `steps` if they apply.
pub open spec fn only_if<S>(applies: bool, steps: Seq<S>) -> Seq<S> {
    if applies {
        steps
    } else {
        Seq::empty()
    }
}

/// A step of parsing a crate.
#[derive(Clone, Copy, PartialEq, Eq, Structural, Debug)]
pub enum ParseStep {
    ParseFile,
    ParseString,
    /// The parse error is emitted, and the compiler gives up.
    EmitAndRaise,
    InjectAttributes,
}

/// The steps of parsing a crate: its input is parsed, and then the attributes of the command line
/// are put in. A parse error ends it.
pub fn parse(input_is_file: bool, fails: bool) -> (steps: Vec<ParseStep>)
    ensures
        steps@ == seq![
            if input_is_file {
                ParseStep::ParseFile
            } else {
                ParseStep::ParseString
            },
            if fails {
                ParseStep::EmitAndRaise
            } else {
                ParseStep::InjectAttributes
            },
        ],
{
    let mut steps: Vec<ParseStep> = Vec::new();
    if input_is_file {
        steps.push(ParseStep::ParseFile);
    } else {
        steps.push(ParseStep::ParseString);
    }
    if fails {
        steps.push(ParseStep::EmitAndRaise);
    } else {
        steps.push(ParseStep::InjectAttributes);
    }
    steps
}

/// A step of expanding a crate.
#[derive(Clone, Copy, PartialEq, Eq, Structural, Debug)]
pub enum ExpandStep {
    PreExpansionLints,
    RegisterBuiltinMacros,
    InjectStandardLibrary,
    /// The host's search path is extended with the libraries of the session.
    ExtendSearchPath,
    ExpandCrate,
    /// The compiler gives up if there was an error.
    AbortIfErrors,
    BufferEarlyLints,
    CheckUnusedMacros,
    RestoreSearchPath,
    PrintMacroStats,
    InjectTestHarness,
    ValidateAst,
    CheckCrateTypes,
    InjectMacroHarness,
    ResolveCrate,
    ReportIncompatibilities,
}

/// What decides on the steps of expanding a crate.
#[derive(Clone, Copy, PartialEq, Eq, Structural, Debug)]
pub struct ExpandFacts {
    /// Whether the host's libraries are found by the search path.
    pub windows: bool,
    /// Whether expanding the macros reported errors.
    pub macro_errors: bool,
    /// Whether expansion was cut short by the recursion limit.
    pub reduced_recursion_limit: bool,
    pub macro_stats: bool,
}

/// The steps up to where an expansion that was cut short ends.
pub open spec fn expansion(facts: ExpandFacts) -> Seq<ExpandStep> {
    seq![
        ExpandStep::PreExpansionLints,
        ExpandStep::RegisterBuiltinMacros,
        ExpandStep::InjectStandardLibrary,
    ] + only_if(facts.windows, seq![ExpandStep::ExtendSearchPath]) + seq![
        ExpandStep::ExpandCrate,
    ] + only_if(facts.macro_errors, seq![ExpandStep::AbortIfErrors]) + seq![
        ExpandStep::BufferEarlyLints,
        ExpandStep::CheckUnusedMacros,
    ]
}

/// The steps of expanding a crate.
pub open spec fn expand_steps(facts: ExpandFacts) -> Seq<ExpandStep> {
    if facts.reduced_recursion_limit {
        expansion(facts).push(ExpandStep::AbortIfErrors)
    } else {
        expansion(facts) + only_if(facts.windows, seq![ExpandStep::RestoreSearchPath]) + only_if(
            facts.macro_stats,
            seq![ExpandStep::PrintMacroStats],
        ) + seq![
            ExpandStep::InjectTestHarness,
            ExpandStep::ValidateAst,
            ExpandStep::CheckCrateTypes,
            ExpandStep::InjectMacroHarness,
            ExpandStep::ResolveCrate,
            ExpandStep::ReportIncompatibilities,
        ]
    }
}

/// The steps of expanding a crate: macros, and what is put in around them. An expansion that was
/// cut short has reported an error, and ends there.
pub fn configure_and_expand(facts: ExpandFacts) -> (steps: Vec<ExpandStep>)
    ensures
        steps@ == expand_steps(facts),
{
    let mut steps: Vec<ExpandStep> = Vec::new();
    steps.push(ExpandStep::PreExpansionLints);
    steps.push(ExpandStep::RegisterBuiltinMacros);
    steps.push(ExpandStep::InjectStandardLibrary);
    if facts.windows {
        steps.push(ExpandStep::ExtendSearchPath);
    }
    steps.push(ExpandStep::ExpandCrate);
    if facts.macro_errors {
        steps.push(ExpandStep::AbortIfErrors);
    }
    steps.push(ExpandStep::BufferEarlyLints);
    steps.push(ExpandStep::CheckUnusedMacros);
    assert(steps@ =~= expansion(facts));
    if facts.reduced_recursion_limit {
        steps.push(ExpandStep::AbortIfErrors);
        return steps;
    }
    if facts.windows {
        steps.push(ExpandStep::RestoreSearchPath);
    }
    if facts.macro_stats {
        steps.push(ExpandStep::PrintMacroStats);
    }
    steps.push(ExpandStep::InjectTestHarness);
    steps.push(ExpandStep::ValidateAst);
    steps.push(ExpandStep::CheckCrateTypes);
    steps.push(ExpandStep::InjectMacroHarness);
    steps.push(ExpandStep::ResolveCrate);
    steps.push(ExpandStep::ReportIncompatibilities);
    assert(steps@ =~= expand_steps(facts));
    steps
}

/// A crate shape that is analysed: a library, or a program.
pub open spec fn analysed_types() -> Seq<CrateType> {
    seq![CrateType::Rlib, CrateType::Executable]
}

/// What is made of a crate that is analysed, and whether it is a program.
pub fn analysed_crate_types(
    options: &TypeOptions,
    attribute: &Vec<CrateType>,
    invalid: &Vec<CrateType>,
) -> (out: (CrateTypes, bool))
    ensures
        out.1 == out.0.types@.contains(CrateType::Executable),
        collects(*options, attribute@, invalid@, analysed_types(), out.0),
{
    let mut supported: Vec<CrateType> = Vec::new();
    supported.push(CrateType::Rlib);
    supported.push(CrateType::Executable);
    assert(supported@ =~= analysed_types());
    let types = collect_crate_types(options, attribute, invalid, &supported);
    let mut executable = false;
    let mut i: usize = 0;
    while i < types.types.len()
        invariant
            i <= types.types@.len(),
            executable == exists|k: int|
                0 <= k < i && #[trigger] types.types@[k] == CrateType::Executable,
        decreases types.types@.len() - i,
    {
        if types.types[i] == CrateType::Executable {
            executable = true;
        }
        i += 1;
    }
    (types, executable)
}

/// A lint that was delayed: the place of its owner among the crate's owners, and its place among
/// the owner's lints.
pub type DelayedAt = (usize, usize);

/// The lints of one owner.
pub open spec fn lints_of(owner: usize, n: nat) -> Seq<DelayedAt> {
    Seq::new(n, |k: int| (owner, k as usize))
}

/// The lints of the first `n` owners, owner by owner. An owner may have none to begin with.
pub open spec fn lints_before(counts: Seq<Option<usize>>, n: int) -> Seq<DelayedAt>
    decreases n,
{
    if n <= 0 {
        Seq::empty()
    } else {
        lints_before(counts, n - 1) + (match counts[n - 1] {
            Some(count) => lints_of((n - 1) as usize, count as nat),
            None => Seq::empty(),
        })
    }
}

/// The order in which delayed lints are emitted, given how many each owner has.
pub fn emit_delayed_lints(counts: &Vec<Option<usize>>) -> (order: Vec<DelayedAt>)
    ensures
        order@ == lints_before(counts@, counts@.len() as int),
{
    let mut order: Vec<DelayedAt> = Vec::new();
    let mut i: usize = 0;
    while i < counts.len()
        invariant
            i <= counts@.len(),
            order@ == lints_before(counts@, i as int),
        decreases counts@.len() - i,
    {
        let ghost before = order@;
        match counts[i] {
            Some(count) => {
                let mut k: usize = 0;
                let ghost own = lints_of(i, count as nat);
                assert(order@ =~= before + own.take(0));
                while k < count
                    invariant
                        k <= count,
                        own == lints_of(i, count as nat),
                        order@ == before + own.take(k as int),
                    decreases count - k,
                {
                    order.push((i, k));
                    k += 1;
                    assert(order@ =~= before + own.take(k as int));
                }
                assert(own.take(k as int) =~= own);
            },
            None => {
                assert(order@ =~= before + Seq::<DelayedAt>::empty());
            },
        }
        i += 1;
    }
    order
}

/// An analysis of the whole crate.
#[derive(Clone, Copy, PartialEq, Eq, Structural, Debug)]
pub enum Analysis {
    PrintHirStats,
    ValidateHirIds,
    HirCrateItems,
    CheckDelegationTargets,
    /// Three independent checks, in this order in a serial session.
    EntryPointChecks,
    ExportableItemsAndModuleChecks,
    LimitsCheck,
    EmitDelayedLints,
    TypeCheckCrate,
    FreezeDefinitions,
    BorrowCheckBodies,
    LayoutTests,
    AbiTests,
    /// The compiler gives up if there was an error that is not a lint.
    AbortIfHardErrors,
    EffectiveVisibilities,
    CheckPrivateInPublic,
    CheckDeadCode,
    CheckLints,
    CheckClashingDeclarations,
    CheckPrivacy,
    CheckExpectations,
    CollectDiagnosticItems,
    CollectCanonicalSymbols,
    /// The final form of the bodies is computed, but for trivial constants.
    ComputeFinalBodies,
}

/// What decides on the analyses of a crate.
#[derive(Clone, Copy, PartialEq, Eq, Structural, Debug)]
pub struct AnalysisFacts {
    pub input_stats: bool,
    /// Whether the compiler checks itself.
    pub debug_assertions: bool,
    /// Whether every lint is capped, so that none can be reported.
    pub lints_capped_to_allow: bool,
    pub validate_mir: bool,
}

/// The analyses that run even after errors.
pub open spec fn required_analyses(facts: AnalysisFacts) -> Seq<Analysis> {
    only_if(facts.input_stats, seq![Analysis::PrintHirStats]) + only_if(
        facts.debug_assertions,
        seq![Analysis::ValidateHirIds],
    ) + seq![
        Analysis::HirCrateItems,
        Analysis::CheckDelegationTargets,
        Analysis::EntryPointChecks,
        Analysis::ExportableItemsAndModuleChecks,
        Analysis::LimitsCheck,
        Analysis::EmitDelayedLints,
        Analysis::TypeCheckCrate,
        Analysis::FreezeDefinitions,
        Analysis::BorrowCheckBodies,
        Analysis::LayoutTests,
        Analysis::AbiTests,
    ]
}

/// The analyses after the required ones.
pub open spec fn later_analyses(facts: AnalysisFacts) -> Seq<Analysis> {
    seq![
        Analysis::AbortIfHardErrors,
        Analysis::EffectiveVisibilities,
        Analysis::CheckPrivateInPublic,
        Analysis::CheckDeadCode,
    ] + only_if(!facts.lints_capped_to_allow, seq![Analysis::CheckLints]) + seq![
        Analysis::CheckClashingDeclarations,
        Analysis::CheckPrivacy,
        Analysis::CheckExpectations,
        Analysis::CollectDiagnosticItems,
        Analysis::CollectCanonicalSymbols,
    ] + only_if(facts.validate_mir, seq![Analysis::ComputeFinalBodies])
}

/// All analyses of a crate.
pub open spec fn all_analyses(facts: AnalysisFacts) -> Seq<Analysis> {
    required_analyses(facts) + later_analyses(facts)
}

/// The analyses that run even after errors, in serial order.
pub fn run_required_analyses(facts: AnalysisFacts) -> (plan: Vec<Analysis>)
    ensures
        plan@ == required_analyses(facts),
{
    let mut plan: Vec<Analysis> = Vec::new();
    if facts.input_stats {
        plan.push(Analysis::PrintHirStats);
    }
    if facts.debug_assertions {
        plan.push(Analysis::ValidateHirIds);
    }
    plan.push(Analysis::HirCrateItems);
    plan.push(Analysis::CheckDelegationTargets);
    plan.push(Analysis::EntryPointChecks);
    plan.push(Analysis::ExportableItemsAndModuleChecks);
    plan.push(Analysis::LimitsCheck);
    plan.push(Analysis::EmitDelayedLints);
    plan.push(Analysis::TypeCheckCrate);
    plan.push(Analysis::FreezeDefinitions);
    plan.push(Analysis::BorrowCheckBodies);
    plan.push(Analysis::LayoutTests);
    plan.push(Analysis::AbiTests);
    assert(plan@ =~= required_analyses(facts));
    plan
}

fn run_later_analyses(facts: AnalysisFacts) -> (plan: Vec<Analysis>)
    ensures
        plan@ == later_analyses(facts),
{
    let mut plan: Vec<Analysis> = Vec::new();
    plan.push(Analysis::AbortIfHardErrors);
    plan.push(Analysis::EffectiveVisibilities);
    plan.push(Analysis::CheckPrivateInPublic);
    plan.push(Analysis::CheckDeadCode);
    if !facts.lints_capped_to_allow {
        plan.push(Analysis::CheckLints);
    }
    plan.push(Analysis::CheckClashingDeclarations);
    plan.push(Analysis::CheckPrivacy);
    plan.push(Analysis::CheckExpectations);
    plan.push(Analysis::CollectDiagnosticItems);
    plan.push(Analysis::CollectCanonicalSymbols);
    if facts.validate_mir {
        plan.push(Analysis::ComputeFinalBodies);
    }
    assert(plan@ =~= later_analyses(facts));
    plan
}

/// All analyses of a crate, in serial order. Those after the required ones only run if there was no
/// error but lints.
pub fn analysis(facts: AnalysisFacts) -> (plan: Vec<Analysis>)
    ensures
        plan@ == all_analyses(facts),
{
    let mut plan = run_required_analyses(facts);
    let mut later = run_later_analyses(facts);
    plan.append(&mut later);
    plan
}

/// Every analysis that is required comes before the place where errors end the rest.
pub proof fn law_required_analyses_run_before_any_abort(facts: AnalysisFacts, a: Analysis)
    requires
        required_analyses(facts).contains(a),
    ensures
        exists|i: int, j: int|
            {
                &&& 0 <= i < j < all_analyses(facts).len()
                &&& #[trigger] all_analyses(facts)[i] == a
                &&& #[trigger] all_analyses(facts)[j] == Analysis::AbortIfHardErrors
            },
{
    let required = required_analyses(facts);
    let all = all_analyses(facts);
    let i = choose|i: int| 0 <= i < required.len() && required[i] == a;
    assert(all[i] == a);
    assert(all[required.len() as int] == Analysis::AbortIfHardErrors);
}

/// Of the first `n` bodies, those whose final form is computed: the ones that are not trivial
/// constants, in order.
pub open spec fn final_bodies_before(trivial_const: Seq<bool>, n: int) -> Seq<usize>
    decreases n,
{
    if n <= 0 {
        Seq::empty()
    } else {
        final_bodies_before(trivial_const, n - 1) + only_if(
            !trivial_const[n - 1],
            seq![(n - 1) as usize],
        )
    }
}

/// The bodies whose final form is computed, in order, given which ones are trivial constants.
pub fn final_bodies(trivial_const: &Vec<bool>) -> (bodies: Vec<usize>)
    ensures
        bodies@ == final_bodies_before(trivial_const@, trivial_const@.len() as int),
{
    let mut bodies: Vec<usize> = Vec::new();
    let mut i: usize = 0;
    while i < trivial_const.len()
        invariant
            i <= trivial_const@.len(),
            bodies@ == final_bodies_before(trivial_const@, i as int),
        decreases trivial_const@.len() - i,
    {
        let ghost before = bodies@;
        if !trivial_const[i] {
            bodies.push(i);
        }
        assert(bodies@ =~= before + only_if(!trivial_const@[i as int], seq![i]));
        i += 1;
    }
    bodies
}

/// What is known of a body.
#[derive(Clone, Copy, PartialEq, Eq, Structural, Debug)]
pub struct BodyFacts {
    /// Whether the body is checked together with its parent.
    pub typeck_child: bool,
    pub trivial_const: bool,
    pub const_context: bool,
    pub coroutine: bool,
    pub async_drop_in_place: bool,
    /// Whether the session offloads anything.
    pub offload: bool,
    pub should_codegen: bool,
}

/// A check of one body.
#[derive(Clone, Copy, PartialEq, Eq, Structural, Debug)]
pub enum BodyCheck {
    Unsafety,
    Borrowck,
    Transmutes,
    Offloads,
    FfiUnwindCalls,
    Liveness,
    ConstCheckedDrops,
    CoroutineLayout,
}

/// The checks of one body, in order.
pub open spec fn body_checks(facts: BodyFacts) -> Seq<BodyCheck> {
    only_if(!facts.typeck_child, seq![BodyCheck::Unsafety]) + only_if(
        !facts.trivial_const,
        only_if(!facts.typeck_child, seq![BodyCheck::Borrowck, BodyCheck::Transmutes]) + only_if(
            !facts.typeck_child && facts.offload,
            seq![BodyCheck::Offloads],
        ) + seq![BodyCheck::FfiUnwindCalls, BodyCheck::Liveness] + only_if(
            facts.should_codegen || facts.const_context,
            seq![BodyCheck::ConstCheckedDrops],
        ) + only_if(
            facts.coroutine && !facts.async_drop_in_place,
            seq![BodyCheck::CoroutineLayout],
        ),
    )
}

/// The checks of one body, in order. A body that is checked with its parent leaves what its parent
/// covers to it, and a trivial constant is not looked at further.
pub fn checks_of_body(facts: BodyFacts) -> (checks: Vec<BodyCheck>)
    ensures
        checks@ == body_checks(facts),
{
    let mut checks: Vec<BodyCheck> = Vec::new();
    if !facts.typeck_child {
        checks.push(BodyCheck::Unsafety);
    }
    if !facts.trivial_const {
        if !facts.typeck_child {
            checks.push(BodyCheck::Borrowck);
            checks.push(BodyCheck::Transmutes);
            if facts.offload {
                checks.push(BodyCheck::Offloads);
            }
        }
        checks.push(BodyCheck::FfiUnwindCalls);
        checks.push(BodyCheck::Liveness);
        if facts.should_codegen || facts.const_context {
            checks.push(BodyCheck::ConstCheckedDrops);
        }
        if facts.coroutine && !facts.async_drop_in_place {
            checks.push(BodyCheck::CoroutineLayout);
        }
    }
    assert(checks@ =~= body_checks(facts));
    checks
}

} // verus!
