//! What a crate is called, and what is made of it.

use vstd::prelude::*;
use vstd::string::StringExecFns;

use crate::error_messages::span::Span;
use crate::text::replace;
use crate::text::replaced;
use crate::text::same_text;
use crate::text::to_chars;

verus! {

/// What is made of a crate, in the order of the list.
#[derive(Clone, Copy, PartialEq, Eq, Structural, Debug)]
pub enum CrateType {
    Executable,
    Dylib,
    Rlib,
    StaticLib,
    Cdylib,
    ProcMacro,
    Sdylib,
}

/// All crate types, in order.
pub open spec fn all_crate_types() -> Seq<CrateType> {
    seq![
        CrateType::Executable,
        CrateType::Dylib,
        CrateType::Rlib,
        CrateType::StaticLib,
        CrateType::Cdylib,
        CrateType::ProcMacro,
        CrateType::Sdylib,
    ]
}

/// Why a crate type is dropped.
#[derive(Clone, Copy, PartialEq, Eq, Structural, Debug)]
pub enum TypeWarning {
    UnsupportedForTarget(CrateType),
    UnsupportedForFrontend(CrateType),
}

/// The session options that decide on crate types.
pub struct TypeOptions {
    /// Whether a test executable is made.
    pub test: bool,
    /// Whether the target has executables.
    pub executables: bool,
    pub build_sdylib_interface: bool,
    /// The types asked for on the command line.
    pub crate_types: Vec<CrateType>,
}

/// What is made of a crate, and what was dropped.
pub struct CrateTypes {
    pub types: Vec<CrateType>,
    pub warnings: Vec<TypeWarning>,
}

/// The crate type of a target for which none is asked for.
pub open spec fn default_type(executables: bool) -> CrateType {
    if executables {
        CrateType::Executable
    } else {
        CrateType::StaticLib
    }
}

/// The types among the first `n` of all that occur in `given`.
pub open spec fn in_order(given: Seq<CrateType>, n: int) -> Seq<CrateType>
    decreases n,
{
    if n <= 0 {
        Seq::empty()
    } else {
        let before = in_order(given, n - 1);
        if given.contains(all_crate_types()[n - 1]) {
            before.push(all_crate_types()[n - 1])
        } else {
            before
        }
    }
}

/// The types that are considered: those of the command line, else those of the crate's attributes,
/// sorted and each once, else the default.
pub open spec fn base_types(
    cli: Seq<CrateType>,
    attribute: Seq<CrateType>,
    executables: bool,
) -> Seq<CrateType> {
    if cli.len() > 0 {
        cli
    } else if attribute.len() == 0 {
        seq![default_type(executables)]
    } else {
        in_order(attribute, 7)
    }
}

/// The types that are kept: those that the target and the frontend both support.
pub open spec fn kept_types(
    types: Seq<CrateType>,
    invalid: Seq<CrateType>,
    supported: Seq<CrateType>,
) -> Seq<CrateType>
    decreases types.len(),
{
    if types.len() == 0 {
        Seq::empty()
    } else {
        let before = kept_types(types.drop_last(), invalid, supported);
        let t = types.last();
        if invalid.contains(t) || !supported.contains(t) {
            before
        } else {
            before.push(t)
        }
    }
}

/// The warnings about the types that are dropped.
pub open spec fn type_warnings(
    types: Seq<CrateType>,
    invalid: Seq<CrateType>,
    supported: Seq<CrateType>,
) -> Seq<TypeWarning>
    decreases types.len(),
{
    if types.len() == 0 {
        Seq::empty()
    } else {
        let before = type_warnings(types.drop_last(), invalid, supported);
        let t = types.last();
        if invalid.contains(t) {
            before.push(TypeWarning::UnsupportedForTarget(t))
        } else if !supported.contains(t) {
            before.push(TypeWarning::UnsupportedForFrontend(t))
        } else {
            before
        }
    }
}

fn has_type(types: &Vec<CrateType>, t: CrateType) -> (yes: bool)
    ensures
        yes == types@.contains(t),
{
    let mut i: usize = 0;
    while i < types.len()
        invariant
            i <= types@.len(),
            forall|k: int| 0 <= k < i ==> types@[k] != t,
        decreases types@.len() - i,
    {
        if types[i] == t {
            assert(types@[i as int] == t);
            return true;
        }
        i += 1;
    }
    false
}

fn type_at(n: usize) -> (t: CrateType)
    requires
        n < 7,
    ensures
        t == all_crate_types()[n as int],
{
    if n == 0 {
        CrateType::Executable
    } else if n == 1 {
        CrateType::Dylib
    } else if n == 2 {
        CrateType::Rlib
    } else if n == 3 {
        CrateType::StaticLib
    } else if n == 4 {
        CrateType::Cdylib
    } else if n == 5 {
        CrateType::ProcMacro
    } else {
        CrateType::Sdylib
    }
}

/// The crate type of a target for which none is asked for.
pub fn default_output_for_target(executables: bool) -> (t: CrateType)
    ensures
        t == default_type(executables),
{
    if !executables {
        CrateType::StaticLib
    } else {
        CrateType::Executable
    }
}

/// `out` is what is made of a crate, and the warnings about what is not.
pub open spec fn collects(
    options: TypeOptions,
    attribute: Seq<CrateType>,
    invalid: Seq<CrateType>,
    supported: Seq<CrateType>,
    out: CrateTypes,
) -> bool {
    if options.test {
        if options.executables {
            out.types@ == seq![CrateType::Executable] && out.warnings@ == Seq::<
                TypeWarning,
            >::empty()
        } else {
            out.types@ == Seq::<CrateType>::empty() && out.warnings@ == seq![
                TypeWarning::UnsupportedForTarget(CrateType::Executable),
            ]
        }
    } else if options.build_sdylib_interface {
        out.types@ == seq![CrateType::Rlib] && out.warnings@ == Seq::<TypeWarning>::empty()
    } else {
        let base = base_types(options.crate_types@, attribute, options.executables);
        out.types@ == kept_types(base, invalid, supported) && out.warnings@ == type_warnings(
            base,
            invalid,
            supported,
        )
    }
}

/// What is made of a crate. `attribute` holds what the crate's attributes say, `invalid` the types
/// that the target does not have, and `supported` those that the frontend has.
pub fn collect_crate_types(
    options: &TypeOptions,
    attribute: &Vec<CrateType>,
    invalid: &Vec<CrateType>,
    supported: &Vec<CrateType>,
) -> (out: CrateTypes)
    ensures
        collects(*options, attribute@, invalid@, supported@, out),
{
    let mut types: Vec<CrateType> = Vec::new();
    let mut warnings: Vec<TypeWarning> = Vec::new();
    if options.test {
        if !options.executables {
            warnings.push(TypeWarning::UnsupportedForTarget(CrateType::Executable));
            assert(warnings@ =~= seq![TypeWarning::UnsupportedForTarget(CrateType::Executable)]);
        } else {
            types.push(CrateType::Executable);
            assert(types@ =~= seq![CrateType::Executable]);
        }
        return CrateTypes { types, warnings };
    }
    if options.build_sdylib_interface {
        types.push(CrateType::Rlib);
        assert(types@ =~= seq![CrateType::Rlib]);
        return CrateTypes { types, warnings };
    }
    let mut base: Vec<CrateType> = Vec::new();
    if options.crate_types.len() > 0 {
        let mut i: usize = 0;
        while i < options.crate_types.len()
            invariant
                i <= options.crate_types@.len(),
                base@ == options.crate_types@.take(i as int),
            decreases options.crate_types@.len() - i,
        {
            base.push(options.crate_types[i]);
            i += 1;
            assert(base@ =~= options.crate_types@.take(i as int));
        }
        assert(base@ =~= options.crate_types@);
    } else if attribute.len() == 0 {
        base.push(default_output_for_target(options.executables));
        assert(base@ =~= seq![default_type(options.executables)]);
    } else {
        let mut n: usize = 0;
        while n < 7
            invariant
                n <= 7,
                base@ == in_order(attribute@, n as int),
            decreases 7 - n,
        {
            let t = type_at(n);
            if has_type(attribute, t) {
                base.push(t);
            }
            n += 1;
        }
    }
    let ghost all = base_types(options.crate_types@, attribute@, options.executables);
    assert(base@ == all);
    let mut i: usize = 0;
    assert(all.take(0) =~= Seq::<CrateType>::empty());
    while i < base.len()
        invariant
            i <= base@.len(),
            base@ == all,
            types@ == kept_types(all.take(i as int), invalid@, supported@),
            warnings@ == type_warnings(all.take(i as int), invalid@, supported@),
        decreases base@.len() - i,
    {
        proof {
            assert(all.take(i + 1).drop_last() =~= all.take(i as int));
            assert(all.take(i + 1).last() == all[i as int]);
        }
        let t = base[i];
        if has_type(invalid, t) {
            warnings.push(TypeWarning::UnsupportedForTarget(t));
        } else if !has_type(supported, t) {
            warnings.push(TypeWarning::UnsupportedForFrontend(t));
        } else {
            types.push(t);
        }
        i += 1;
    }
    assert(all.take(i as int) =~= all);
    CrateTypes { types, warnings }
}

/// What is wrong with a set of crate types, or suspicious about it.
#[derive(Clone, Copy, PartialEq, Eq, Structural, Debug)]
pub enum TypeReport {
    /// An executable together with something else.
    MixedBinCrate,
    /// A macro crate together with something else.
    MixedProcMacroCrate,
    UnstableWasmProcMacro,
    UnstableSdylib,
    /// A macro crate that aborts on panic. Only a warning.
    ProcMacroCratePanicAbort,
}

/// What the session says about a crate's types.
#[derive(Clone, Copy, PartialEq, Eq, Structural, Debug)]
pub struct TypeFacts {
    pub is_like_wasm: bool,
    pub wasm_proc_macros: bool,
    pub export_stable: bool,
    /// Whether a panic unwinds.
    pub unwinds: bool,
}

/// A report, if it applies.
pub open spec fn if_applies(applies: bool, report: TypeReport) -> Seq<TypeReport> {
    if applies {
        seq![report]
    } else {
        Seq::empty()
    }
}

/// The reports about a crate's types, in order.
pub open spec fn type_reports(types: Seq<CrateType>, facts: TypeFacts) -> Seq<TypeReport> {
    let mixed = types.len() > 1;
    let bin = types.contains(CrateType::Executable);
    let proc_macro = types.contains(CrateType::ProcMacro);
    if_applies(mixed && bin, TypeReport::MixedBinCrate) + if_applies(
        mixed && proc_macro,
        TypeReport::MixedProcMacroCrate,
    ) + if_applies(
        proc_macro && facts.is_like_wasm && !facts.wasm_proc_macros,
        TypeReport::UnstableWasmProcMacro,
    ) + if_applies(
        types.contains(CrateType::Sdylib) && !facts.export_stable,
        TypeReport::UnstableSdylib,
    ) + if_applies(proc_macro && !facts.unwinds, TypeReport::ProcMacroCratePanicAbort)
}

/// The reports about a crate's types, in order.
pub fn check_crate_types(types: &Vec<CrateType>, facts: TypeFacts) -> (reports: Vec<TypeReport>)
    ensures
        reports@ == type_reports(types@, facts),
{
    let is_executable_crate = has_type(types, CrateType::Executable);
    let is_proc_macro_crate = has_type(types, CrateType::ProcMacro);
    let mut reports: Vec<TypeReport> = Vec::new();
    if types.len() > 1 {
        if is_executable_crate {
            reports.push(TypeReport::MixedBinCrate);
        }
        if is_proc_macro_crate {
            reports.push(TypeReport::MixedProcMacroCrate);
        }
    }
    if is_proc_macro_crate && facts.is_like_wasm && !facts.wasm_proc_macros {
        reports.push(TypeReport::UnstableWasmProcMacro);
    }
    if has_type(types, CrateType::Sdylib) && !facts.export_stable {
        reports.push(TypeReport::UnstableSdylib);
    }
    if is_proc_macro_crate && !facts.unwinds {
        reports.push(TypeReport::ProcMacroCratePanicAbort);
    }
    assert(reports@ =~= type_reports(types@, facts));
    reports
}

/// Whether the crate's interface is written out.
pub fn writes_interface(types: &Vec<CrateType>) -> (yes: bool)
    ensures
        yes == types@.contains(CrateType::Sdylib),
{
    has_type(types, CrateType::Sdylib)
}

/// What is wrong with a crate's name.
#[derive(Clone, Copy, PartialEq, Eq, Structural, Debug)]
pub enum NameFault {
    /// The attribute at this span gives another name than the command line.
    DoesNotMatch(Span),
    /// The name of the file starts with a dash.
    Invalid,
}

/// A crate's name.
pub struct CrateName {
    pub name: String,
    /// The name has yet to be validated, at this span if there is one.
    pub validate: Option<Option<Span>>,
    pub fault: Option<NameFault>,
}

/// A file name as a crate name.
pub open spec fn underscored(s: Seq<char>) -> Seq<char> {
    replaced(s, '-', "_"@)
}

/// Finds a crate's name: the one of the command line, else the one of the crate's attribute, else
/// one made of the input file's name. `file_stem` is that name without its extension, for an input
/// that is a file.
pub fn get_crate_name(
    crate_name: Option<&str>,
    attribute: Option<(&str, Span)>,
    file_stem: Option<&str>,
) -> (out: CrateName)
    ensures
        crate_name matches Some(name) ==> {
            &&& out.name@ == name@
            &&& out.validate == Some(None::<Span>)
            &&& out.fault == (match attribute {
                Some(attr) => if attr.0@ != name@ {
                    Some(NameFault::DoesNotMatch(attr.1))
                } else {
                    None
                },
                None => None,
            })
        },
        crate_name is None ==> (attribute matches Some(attr) ==> out.name@ == attr.0@
            && out.validate == Some(Some(attr.1)) && out.fault is None),
        crate_name is None && attribute is None ==> match file_stem {
            Some(stem) => if stem@.len() > 0 && stem@[0] == '-' {
                out.name@ == "rust_out"@ && out.validate is None && out.fault == Some(
                    NameFault::Invalid,
                )
            } else {
                out.name@ == underscored(stem@) && out.validate == Some(None::<Span>)
                    && out.fault is None
            },
            None => out.name@ == "rust_out"@ && out.validate is None && out.fault is None,
        },
{
    match crate_name {
        Some(name) => {
            let fault = match attribute {
                Some(attr) => if !same_text(attr.0, name) {
                    Some(NameFault::DoesNotMatch(attr.1))
                } else {
                    None
                },
                None => None,
            };
            let mut text = String::new();
            text.append(name);
            assert(text@ =~= name@);
            return CrateName { name: text, validate: Some(None), fault };
        },
        None => {},
    }
    match attribute {
        Some(attr) => {
            let mut text = String::new();
            text.append(attr.0);
            assert(text@ =~= attr.0@);
            return CrateName { name: text, validate: Some(Some(attr.1)), fault: None };
        },
        None => {},
    }
    let mut fault: Option<NameFault> = None;
    match file_stem {
        Some(stem) => {
            let chars = to_chars(stem);
            if chars.len() > 0 && chars[0] == '-' {
                fault = Some(NameFault::Invalid);
            } else {
                return CrateName {
                    name: replace(stem, '-', "_"),
                    validate: Some(None),
                    fault: None,
                };
            }
        },
        None => {},
    }
    let mut text = String::new();
    text.append("rust_out");
    assert(text@ =~= "rust_out"@);
    CrateName { name: text, validate: None, fault }
}

/// Where a crate type stands among all.
pub open spec fn type_place(t: CrateType) -> int {
    match t {
        CrateType::Executable => 0,
        CrateType::Dylib => 1,
        CrateType::Rlib => 2,
        CrateType::StaticLib => 3,
        CrateType::Cdylib => 4,
        CrateType::ProcMacro => 5,
        CrateType::Sdylib => 6,
    }
}

/// The types that are made keep their order: what is kept of a longer list is what is kept of the
/// shorter one, and the last type behind it exactly if the target has it and the frontend can make
/// it. For a type that is dropped there is a warning, and the target is blamed first.
pub proof fn law_a_type_is_made_or_warned_about(
    types: Seq<CrateType>,
    t: CrateType,
    invalid: Seq<CrateType>,
    supported: Seq<CrateType>,
)
    ensures
        kept_types(Seq::empty(), invalid, supported) == Seq::<CrateType>::empty(),
        type_warnings(Seq::empty(), invalid, supported) == Seq::<TypeWarning>::empty(),
        !invalid.contains(t) && supported.contains(t) ==> {
            &&& kept_types(types.push(t), invalid, supported) == kept_types(
                types,
                invalid,
                supported,
            ).push(t)
            &&& type_warnings(types.push(t), invalid, supported) == type_warnings(
                types,
                invalid,
                supported,
            )
        },
        invalid.contains(t) || !supported.contains(t) ==> {
            &&& kept_types(types.push(t), invalid, supported) == kept_types(
                types,
                invalid,
                supported,
            )
            &&& type_warnings(types.push(t), invalid, supported) == type_warnings(
                types,
                invalid,
                supported,
            ).push(
                if invalid.contains(t) {
                    TypeWarning::UnsupportedForTarget(t)
                } else {
                    TypeWarning::UnsupportedForFrontend(t)
                },
            )
        },
{
    assert(types.push(t).drop_last() =~= types);
}

proof fn lemma_in_order(given: Seq<CrateType>, n: int)
    requires
        0 <= n <= 7,
    ensures
        forall|t: CrateType|
            in_order(given, n).contains(t) <==> given.contains(t) && #[trigger] type_place(t) < n,
        forall|i: int, j: int|
            0 <= i < j < in_order(given, n).len() ==> type_place(#[trigger] in_order(given, n)[i])
                < type_place(#[trigger] in_order(given, n)[j]),
    decreases n,
{
    if n > 0 {
        lemma_in_order(given, n - 1);
        let before = in_order(given, n - 1);
        let all = in_order(given, n);
        let last = all_crate_types()[n - 1];
        assert(type_place(last) == n - 1);
        assert forall|t: CrateType|
            all.contains(t) <==> given.contains(t) && #[trigger] type_place(t) < n by {
            assert(type_place(t) == n - 1 ==> t == last);
            assert(before.contains(t) <==> given.contains(t) && type_place(t) < n - 1);
            if before.contains(t) {
                let k = choose|k: int| 0 <= k < before.len() && before[k] == t;
                assert(all[k] == t);
            }
            if t == last && given.contains(t) {
                assert(all[all.len() - 1] == t);
            }
            if all.contains(t) {
                let k = choose|k: int| 0 <= k < all.len() && all[k] == t;
                if k < before.len() {
                    assert(before[k] == t);
                }
            }
        }
        assert forall|i: int, j: int| 0 <= i < j < all.len() implies type_place(
            #[trigger] all[i],
        ) < type_place(#[trigger] all[j]) by {
            assert(before.contains(before[i]));
        }
    }
}

/// Types that a crate's attributes ask for are made once each and in one order, however often and in
/// whatever order they are asked for.
pub proof fn law_attributes_are_put_in_order(attribute: Seq<CrateType>, executables: bool)
    requires
        attribute.len() > 0,
    ensures
        forall|t: CrateType|
            attribute.contains(t) <==> #[trigger] base_types(
                Seq::empty(),
                attribute,
                executables,
            ).contains(t),
        forall|i: int, j: int|
            0 <= i < j < base_types(Seq::empty(), attribute, executables).len() ==> type_place(
                #[trigger] base_types(Seq::empty(), attribute, executables)[i],
            ) < type_place(#[trigger] base_types(Seq::empty(), attribute, executables)[j]),
{
    lemma_in_order(attribute, 7);
    assert forall|t: CrateType| attribute.contains(t) <==> #[trigger] base_types(
        Seq::empty(),
        attribute,
        executables,
    ).contains(t) by {
        assert(type_place(t) < 7);
    }
}

/// The command line comes first, then the crate's attributes, and a crate for which nothing is asked
/// becomes an executable where there are any, else a static library. A test becomes an executable
/// or nothing, with a warning; an interface becomes a library.
pub proof fn law_the_command_line_decides(
    options: &TypeOptions,
    attribute: &Vec<CrateType>,
    invalid: &Vec<CrateType>,
    supported: &Vec<CrateType>,
    out: CrateTypes,
    t: CrateType,
)
    requires
        call_ensures(collect_crate_types, (options, attribute, invalid, supported), out),
        forall|t: CrateType| !invalid@.contains(t) && supported@.contains(t),
    ensures
        !options.test && !options.build_sdylib_interface ==> {
            &&& out.warnings@.len() == 0
            &&& options.crate_types@.len() > 0 ==> out.types@ == options.crate_types@
            &&& options.crate_types@.len() == 0 && attribute@.len() > 0 ==> (out.types@.contains(t)
                <==> attribute@.contains(t))
            &&& options.crate_types@.len() == 0 && attribute@.len() == 0 ==> out.types@ == seq![
                if options.executables {
                    CrateType::Executable
                } else {
                    CrateType::StaticLib
                },
            ]
        },
        options.test && options.executables ==> out.types@ == seq![CrateType::Executable]
            && out.warnings@.len() == 0,
        options.test && !options.executables ==> out.types@.len() == 0 && out.warnings@ == seq![
            TypeWarning::UnsupportedForTarget(CrateType::Executable),
        ],
        !options.test && options.build_sdylib_interface ==> out.types@ == seq![CrateType::Rlib]
            && out.warnings@.len() == 0,
{
    lemma_all_kept(
        base_types(options.crate_types@, attribute@, options.executables),
        invalid@,
        supported@,
    );
    lemma_in_order(attribute@, 7);
    assert(type_place(t) < 7);
}

proof fn lemma_all_kept(
    types: Seq<CrateType>,
    invalid: Seq<CrateType>,
    supported: Seq<CrateType>,
)
    requires
        forall|t: CrateType| !invalid.contains(t) && supported.contains(t),
    ensures
        kept_types(types, invalid, supported) == types,
        type_warnings(types, invalid, supported) == Seq::<TypeWarning>::empty(),
    decreases types.len(),
{
    if types.len() > 0 {
        lemma_all_kept(types.drop_last(), invalid, supported);
        assert(types.drop_last().push(types.last()) =~= types);
    }
}

/// Where a report stands.
pub open spec fn report_place(r: TypeReport) -> int {
    match r {
        TypeReport::MixedBinCrate => 0,
        TypeReport::MixedProcMacroCrate => 1,
        TypeReport::UnstableWasmProcMacro => 2,
        TypeReport::UnstableSdylib => 3,
        TypeReport::ProcMacroCratePanicAbort => 4,
    }
}

/// An executable and a macro crate stand alone; a macro crate for a small target, and a library with
/// a stable interface, take a feature; a macro crate that aborts on panic is warned about. Nothing
/// is reported twice, and the reports come in one order.
pub proof fn law_a_bad_set_of_types_is_reported(
    types: &Vec<CrateType>,
    facts: TypeFacts,
    reports: Vec<TypeReport>,
    r: TypeReport,
)
    requires
        call_ensures(check_crate_types, (types, facts), reports),
    ensures
        reports@.contains(r) <==> (match r {
            TypeReport::MixedBinCrate => types@.len() > 1 && types@.contains(
                CrateType::Executable,
            ),
            TypeReport::MixedProcMacroCrate => types@.len() > 1 && types@.contains(
                CrateType::ProcMacro,
            ),
            TypeReport::UnstableWasmProcMacro => types@.contains(CrateType::ProcMacro)
                && facts.is_like_wasm && !facts.wasm_proc_macros,
            TypeReport::UnstableSdylib => types@.contains(CrateType::Sdylib)
                && !facts.export_stable,
            TypeReport::ProcMacroCratePanicAbort => types@.contains(CrateType::ProcMacro)
                && !facts.unwinds,
        }),
        forall|i: int, j: int|
            0 <= i < j < reports@.len() ==> report_place(#[trigger] reports@[i]) < report_place(
                #[trigger] reports@[j],
            ),
{
    let mixed = types@.len() > 1;
    let bin = types@.contains(CrateType::Executable);
    let proc_macro = types@.contains(CrateType::ProcMacro);
    let a = if_applies(mixed && bin, TypeReport::MixedBinCrate);
    let b = if_applies(mixed && proc_macro, TypeReport::MixedProcMacroCrate);
    let c = if_applies(
        proc_macro && facts.is_like_wasm && !facts.wasm_proc_macros,
        TypeReport::UnstableWasmProcMacro,
    );
    let d = if_applies(
        types@.contains(CrateType::Sdylib) && !facts.export_stable,
        TypeReport::UnstableSdylib,
    );
    let e = if_applies(proc_macro && !facts.unwinds, TypeReport::ProcMacroCratePanicAbort);
    let all = a + b + c + d + e;
    assert(reports@ == all);
    if a.len() > 0 {
        assert(all[0] == a[0]);
    }
    if b.len() > 0 {
        assert(all[a.len() as int] == b[0]);
    }
    if c.len() > 0 {
        assert(all[(a + b).len() as int] == c[0]);
    }
    if d.len() > 0 {
        assert(all[(a + b + c).len() as int] == d[0]);
    }
    if e.len() > 0 {
        assert(all[(a + b + c + d).len() as int] == e[0]);
    }
}

/// A crate that is named after its file has the file's name, letter by letter, with an underscore
/// where that has a dash.
pub proof fn law_a_file_names_its_crate(file_stem: &str, out: CrateName)
    requires
        call_ensures(get_crate_name, (None, None, Some(file_stem)), out),
        file_stem@.len() > 0,
        file_stem@[0] != '-',
    ensures
        out.name@.len() == file_stem@.len(),
        forall|i: int|
            0 <= i < file_stem@.len() ==> #[trigger] out.name@[i] == (if file_stem@[i] == '-' {
                '_'
            } else {
                file_stem@[i]
            }),
        out.fault is None,
{
    lemma_underscored(file_stem@);
}

/// A name is underscored letter by letter.
pub proof fn lemma_underscored(s: Seq<char>)
    ensures
        underscored(s).len() == s.len(),
        forall|i: int|
            0 <= i < s.len() ==> #[trigger] underscored(s)[i] == (if s[i] == '-' {
                '_'
            } else {
                s[i]
            }),
    decreases s.len(),
{
    reveal_strlit("_");
    if s.len() > 0 {
        lemma_underscored(s.drop_last());
    }
}

} // verus!
