//! Type checking a crate: which checks run on which items.

use vstd::prelude::*;
use vstd::string::StringExecFns;

use crate::interface::passes::only_if;
use crate::sort::is_text_leq;
use crate::sort::lemma_text_leq_total;
use crate::sort::lemma_text_leq_transitive;
use crate::sort::sort;
use crate::sort::sorted;
use crate::sort::text_leq;
use crate::sort::TotalOrder;

verus! {

/// Whether a calling convention can have a variable number of arguments.
#[derive(Clone, Copy, PartialEq, Eq, Structural, Debug)]
pub enum CVariadicStatus {
    Stable,
    NotSupported,
    /// Only with a feature, and whether that feature is enabled.
    Unstable(bool),
}

/// What is wrong with a function that takes a variable number of arguments.
#[derive(Clone, Copy, PartialEq, Eq, Structural, Debug)]
pub enum VariadicFault {
    /// The calling convention cannot have any.
    IncompatibleConvention,
    /// The feature that it takes is not enabled.
    FeatureDisabled,
}

/// What is wrong with a function whose arguments may vary in number, if anything is.
pub fn check_c_variadic_abi(c_variadic: bool, status: CVariadicStatus) -> (fault: Option<
    VariadicFault,
>)
    ensures
        fault == (if !c_variadic {
            None
        } else {
            match status {
                CVariadicStatus::Stable => None,
                CVariadicStatus::NotSupported => Some(VariadicFault::IncompatibleConvention),
                CVariadicStatus::Unstable(enabled) => if enabled {
                    None
                } else {
                    Some(VariadicFault::FeatureDisabled)
                },
            }
        }),
{
    if !c_variadic {
        return None;
    }
    match status {
        CVariadicStatus::Stable => None,
        CVariadicStatus::NotSupported => Some(VariadicFault::IncompatibleConvention),
        CVariadicStatus::Unstable(enabled) => if enabled {
            None
        } else {
            Some(VariadicFault::FeatureDisabled)
        },
    }
}

/// The message about a calling convention whose feature is not enabled.
pub fn variadic_feature_message(abi: &str) -> (text: String)
    ensures
        text@ == "C-variadic functions with the "@ + abi@ + " calling convention are unstable"@,
{
    let mut text = String::new();
    text.append("C-variadic functions with the ");
    text.append(abi);
    text.append(" calling convention are unstable");
    assert(text@ =~= "C-variadic functions with the "@ + abi@
        + " calling convention are unstable"@);
    text
}

/// A check of the whole crate.
#[derive(Clone, Copy, PartialEq, Eq, Structural, Debug)]
pub enum CrateCheck {
    TypeWellFormedness,
    /// One stage over the traits that have implementations here.
    TraitCoherence,
    InherentImplsValidity,
    InherentImplsOverlap,
    /// One stage over the bodies.
    TypeCheckBodies,
    /// A second stage over the bodies, once every one of them is type checked.
    CoroutineBodies,
    DumpClausesAndItemBounds,
    DumpDefParents,
    DumpGenerics,
    DumpObjectLifetimeDefaults,
    DumpOpaqueHiddenTypes,
    DumpVtables,
    DumpInferredOutlives,
    DumpVariances,
    UnusedTraits,
}

/// The checks of a crate, in order.
pub open spec fn crate_checks(rustc_attrs: bool) -> Seq<CrateCheck> {
    seq![
        CrateCheck::TypeWellFormedness,
        CrateCheck::TraitCoherence,
        CrateCheck::InherentImplsValidity,
        CrateCheck::InherentImplsOverlap,
        CrateCheck::TypeCheckBodies,
        CrateCheck::CoroutineBodies,
    ] + only_if(
        rustc_attrs,
        seq![
            CrateCheck::DumpClausesAndItemBounds,
            CrateCheck::DumpDefParents,
            CrateCheck::DumpGenerics,
            CrateCheck::DumpObjectLifetimeDefaults,
            CrateCheck::DumpOpaqueHiddenTypes,
            CrateCheck::DumpVtables,
            CrateCheck::DumpInferredOutlives,
            CrateCheck::DumpVariances,
        ],
    ) + seq![CrateCheck::UnusedTraits]
}

/// The checks of a crate, in order. What the compiler knows is dumped only for code that asks for
/// it.
pub fn check_crate(rustc_attrs: bool) -> (checks: Vec<CrateCheck>)
    ensures
        checks@ == crate_checks(rustc_attrs),
{
    let mut checks: Vec<CrateCheck> = Vec::new();
    checks.push(CrateCheck::TypeWellFormedness);
    checks.push(CrateCheck::TraitCoherence);
    checks.push(CrateCheck::InherentImplsValidity);
    checks.push(CrateCheck::InherentImplsOverlap);
    checks.push(CrateCheck::TypeCheckBodies);
    checks.push(CrateCheck::CoroutineBodies);
    if rustc_attrs {
        checks.push(CrateCheck::DumpClausesAndItemBounds);
        checks.push(CrateCheck::DumpDefParents);
        checks.push(CrateCheck::DumpGenerics);
        checks.push(CrateCheck::DumpObjectLifetimeDefaults);
        checks.push(CrateCheck::DumpOpaqueHiddenTypes);
        checks.push(CrateCheck::DumpVtables);
        checks.push(CrateCheck::DumpInferredOutlives);
        checks.push(CrateCheck::DumpVariances);
    }
    checks.push(CrateCheck::UnusedTraits);
    assert(checks@ =~= crate_checks(rustc_attrs));
    checks
}

/// The sum of weights, but no more than the biggest weight there is.
pub open spec fn capped_sum(weights: Seq<u32>) -> nat
    decreases weights.len(),
{
    if weights.len() == 0 {
        0
    } else {
        let sum = capped_sum(weights.drop_last()) + weights.last() as nat;
        if sum > u32::MAX {
            u32::MAX as nat
        } else {
            sum
        }
    }
}

/// How much the coherence check of a trait weighs: as much as its implementations together.
pub fn coherence_weight(impls: &Vec<u32>) -> (weight: u32)
    ensures
        weight == capped_sum(impls@),
{
    let mut weight: u32 = 0;
    let mut i: usize = 0;
    assert(impls@.take(0) =~= Seq::<u32>::empty());
    while i < impls.len()
        invariant
            i <= impls@.len(),
            weight == capped_sum(impls@.take(i as int)),
        decreases impls@.len() - i,
    {
        proof {
            assert(impls@.take(i + 1).drop_last() =~= impls@.take(i as int));
            assert(impls@.take(i + 1).last() == impls@[i as int]);
        }
        weight = match weight.checked_add(impls[i]) {
            Some(sum) => sum,
            None => u32::MAX,
        };
        i += 1;
    }
    assert(impls@.take(i as int) =~= impls@);
    weight
}

/// How much the second pass over a body weighs: it is a lookup.
pub fn coroutine_pass_weight() -> (weight: u32)
    ensures
        weight == 1,
{
    1
}

/// What kind of body an item has.
#[derive(Clone, Copy, PartialEq, Eq, Structural, Debug)]
pub enum BodyKind {
    Static,
    Const,
    AnonConst,
    Other,
}

/// What is known of an item that has a body.
#[derive(Clone, Copy, PartialEq, Eq, Structural, Debug)]
pub struct OwnerFacts {
    pub kind: BodyKind,
    /// Whether the item's own parameters have to be known to evaluate it.
    pub requires_monomorphization: bool,
    pub type_const: bool,
    /// For an anonymous constant: whether it is inline and not part of a type.
    pub non_type_system_inline: bool,
    /// Whether its parent's type check covers it.
    pub typeck_child: bool,
}

/// What is done with an item that has a body.
#[derive(Clone, Copy, PartialEq, Eq, Structural, Debug)]
pub enum OwnerCheck {
    EvalStaticInitializer,
    CheckStaticLinkSection,
    EvalConst,
    Typeck,
}

/// What is done with an item that has a body, in order.
pub open spec fn owner_checks(facts: OwnerFacts) -> Seq<OwnerCheck> {
    only_if(
        facts.kind == BodyKind::Static,
        seq![OwnerCheck::EvalStaticInitializer, OwnerCheck::CheckStaticLinkSection],
    ) + only_if(
        facts.kind == BodyKind::Const && !facts.requires_monomorphization && !facts.type_const,
        seq![OwnerCheck::EvalConst],
    ) + only_if(
        !(facts.kind == BodyKind::AnonConst && !facts.non_type_system_inline)
            && !facts.typeck_child,
        seq![OwnerCheck::Typeck],
    )
}

/// What is done with an item that has a body, in order: statics and constants are evaluated even if
/// they are not used, and a body is type checked unless its type is given by what it is part of.
pub fn checks_of_owner(facts: OwnerFacts) -> (checks: Vec<OwnerCheck>)
    ensures
        checks@ == owner_checks(facts),
{
    let mut checks: Vec<OwnerCheck> = Vec::new();
    if facts.kind == BodyKind::Static {
        checks.push(OwnerCheck::EvalStaticInitializer);
        checks.push(OwnerCheck::CheckStaticLinkSection);
    } else if facts.kind == BodyKind::Const && !facts.requires_monomorphization
        && !facts.type_const {
        checks.push(OwnerCheck::EvalConst);
    }
    if !((facts.kind == BodyKind::AnonConst && !facts.non_type_system_inline)
        || facts.typeck_child) {
        checks.push(OwnerCheck::Typeck);
    }
    assert(checks@ =~= owner_checks(facts));
    checks
}

/// A clause as it is printed.
pub struct Clause {
    pub text: String,
}

impl TotalOrder for Clause {
    open spec fn leq(a: Self, b: Self) -> bool {
        text_leq(a.text@, b.text@)
    }

    proof fn lemma_total(a: Self, b: Self) {
        lemma_text_leq_total(a.text@, b.text@);
    }

    proof fn lemma_transitive(a: Self, b: Self, c: Self) {
        lemma_text_leq_transitive(a.text@, b.text@, c.text@);
    }

    fn is_leq(a: &Self, b: &Self) -> (yes: bool) {
        is_text_leq(a.text.as_str(), b.text.as_str())
    }
}

/// The notes about what an item's types outlive, sorted. `None` for an item that does not ask for
/// them.
pub fn inferred_outlives(asked: bool, clauses: Vec<Clause>) -> (notes: Option<Vec<Clause>>)
    ensures
        notes is Some == asked,
        notes matches Some(notes) ==> sorted(notes@) && notes@.to_multiset()
            == clauses@.to_multiset(),
{
    if asked {
        Some(sort(clauses))
    } else {
        None
    }
}

/// How a value is dereferenced.
#[derive(Clone, Copy, PartialEq, Eq, Structural, Debug)]
pub enum AutoderefKind {
    Builtin,
    /// By a method. What the method gives, if there is one: a reference, and whether it is mutable,
    /// or something else.
    Overloaded(Option<Option<bool>>),
}

/// One step of dereferencing.
#[derive(Clone, Copy, PartialEq, Eq, Structural, Debug)]
pub struct DerefStep {
    /// The number of the type that is dereferenced.
    pub ty: u32,
    pub kind: AutoderefKind,
}

/// How a step adjusts a value: by a method, mutably or not, or in the language itself.
#[derive(Clone, Copy, PartialEq, Eq, Structural, Debug)]
pub struct Adjustment {
    /// Whether the method's reference is mutable, if there is a method.
    pub overloaded: Option<bool>,
    /// The number of the type that comes of it.
    pub target: u32,
}

/// How a step adjusts a value.
pub open spec fn overload_of(kind: AutoderefKind) -> Option<bool> {
    match kind {
        AutoderefKind::Builtin => None,
        AutoderefKind::Overloaded(method) => match method {
            Some(output) => output,
            None => None,
        },
    }
}

/// The adjustments of a chain of dereferences: each step leads to the type of the next, and the
/// last to the final type.
pub open spec fn adjustments(steps: Seq<DerefStep>, final_ty: u32) -> Seq<Adjustment> {
    Seq::new(
        steps.len(),
        |i: int|
            Adjustment {
                overloaded: overload_of(steps[i].kind),
                target: if i + 1 < steps.len() {
                    steps[i + 1].ty
                } else {
                    final_ty
                },
            },
    )
}

/// The adjustments of a chain of dereferences. A method that does not give a reference counts as
/// none.
pub fn adjust_steps(steps: &Vec<DerefStep>, final_ty: u32) -> (adjusted: Vec<Adjustment>)
    ensures
        adjusted@ == adjustments(steps@, final_ty),
{
    let mut adjusted: Vec<Adjustment> = Vec::new();
    let mut i: usize = 0;
    while i < steps.len()
        invariant
            i <= steps@.len(),
            adjusted@ == adjustments(steps@, final_ty).take(i as int),
        decreases steps@.len() - i,
    {
        let overloaded = match steps[i].kind {
            AutoderefKind::Builtin => None,
            AutoderefKind::Overloaded(method) => match method {
                Some(output) => output,
                None => None,
            },
        };
        let target = if steps.len() - i > 1 {
            steps[i + 1].ty
        } else {
            final_ty
        };
        adjusted.push(Adjustment { overloaded, target });
        i += 1;
        assert(adjusted@ =~= adjustments(steps@, final_ty).take(i as int));
    }
    assert(adjusted@ =~= adjustments(steps@, final_ty));
    adjusted
}

} // verus!
