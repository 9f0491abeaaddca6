//! Where the outputs of a compilation go.

use vstd::prelude::*;

use crate::base_n::base_digits;
use crate::base_n::digit_count;
use crate::base_n::zero_padded;
use crate::base_n::ToBaseN;
use crate::base_n::CASE_INSENSITIVE;
use crate::interface::crate_info::lemma_underscored;
use crate::interface::crate_info::underscored;
use crate::interface::crate_info::writes_interface;
use crate::interface::crate_info::CrateType;
use crate::text::replace;
use crate::text::texts;

verus! {

/// A kind of output, as far as its paths go.
#[derive(Clone, Copy, PartialEq, Eq, Structural, Debug)]
pub enum OutputType {
    Exe,
    DepInfo,
    Other,
}

/// One output that is asked for.
pub struct OutputEntry {
    pub kind: OutputType,
    /// Whether it is text.
    pub text: bool,
    /// Where it was asked to go, if anywhere.
    pub file: Option<OutFileName>,
    /// Where it goes.
    pub path: String,
    /// Whether that is the standard output.
    pub stdout: bool,
}

#[derive(Clone, Copy, PartialEq, Eq, Structural, Debug)]
pub enum OutFileName {
    Real,
    Stdout,
}

/// The paths of the files that are generated. With an exact name, the executable has that name;
/// else it has one for each crate type.
pub open spec fn generated_paths(
    outputs: Seq<OutputEntry>,
    exact_name: bool,
    crate_paths: Seq<Seq<char>>,
    omit_d_target: bool,
) -> Seq<Seq<char>>
    decreases outputs.len(),
{
    if outputs.len() == 0 {
        Seq::empty()
    } else {
        let before = generated_paths(outputs.drop_last(), exact_name, crate_paths, omit_d_target);
        let o = outputs.last();
        if o.kind == OutputType::Exe && !exact_name {
            before + crate_paths
        } else if o.kind == OutputType::DepInfo && (omit_d_target || o.stdout) {
            before
        } else {
            before.push(o.path@)
        }
    }
}

/// The paths of the files that are generated. `crate_paths` holds the path of each crate type.
pub fn generated_output_paths(
    outputs: &Vec<OutputEntry>,
    exact_name: bool,
    crate_paths: &Vec<String>,
    omit_d_target: bool,
) -> (paths: Vec<String>)
    ensures
        texts(paths@) == generated_paths(
            outputs@,
            exact_name,
            texts(crate_paths@),
            omit_d_target,
        ),
{
    let mut paths: Vec<String> = Vec::new();
    let ghost crates = texts(crate_paths@);
    let mut i: usize = 0;
    assert(outputs@.take(0) =~= Seq::<OutputEntry>::empty());
    assert(texts(paths@) =~= Seq::<Seq<char>>::empty());
    while i < outputs.len()
        invariant
            i <= outputs@.len(),
            crates == texts(crate_paths@),
            texts(paths@) == generated_paths(
                outputs@.take(i as int),
                exact_name,
                crates,
                omit_d_target,
            ),
        decreases outputs@.len() - i,
    {
        let o = &outputs[i];
        let ghost before = texts(paths@);
        proof {
            assert(outputs@.take(i + 1).drop_last() =~= outputs@.take(i as int));
            assert(outputs@.take(i + 1).last() == *o);
        }
        if o.kind == OutputType::Exe && !exact_name {
            let mut k: usize = 0;
            assert(texts(paths@) =~= before + crates.take(0));
            while k < crate_paths.len()
                invariant
                    k <= crate_paths@.len(),
                    crates == texts(crate_paths@),
                    texts(paths@) == before + crates.take(k as int),
                decreases crate_paths@.len() - k,
            {
                let ghost so_far = texts(paths@);
                paths.push(crate_paths[k].clone());
                assert(texts(paths@) =~= so_far.push(crates[k as int]));
                k += 1;
                assert(texts(paths@) =~= before + crates.take(k as int));
            }
            assert(crates.take(k as int) =~= crates);
        } else if o.kind == OutputType::DepInfo && (omit_d_target || o.stdout) {
        } else {
            paths.push(o.path.clone());
            assert(texts(paths@) =~= before.push(o.path@));
        }
        i += 1;
    }
    assert(outputs@.take(i as int) =~= outputs@);
    paths
}

/// Whether an output would overwrite the input, given the canonical paths of both. A path that has
/// none cannot be told.
pub fn output_contains_path(outputs: &Vec<Option<String>>, input: &Option<String>) -> (yes: bool)
    ensures
        yes == (*input is Some && exists|i: int|
            0 <= i < outputs@.len() && (#[trigger] outputs@[i]) is Some && outputs@[i]->0@
                == input->0@),
{
    match input {
        None => false,
        Some(want) => {
            let mut i: usize = 0;
            while i < outputs.len()
                invariant
                    i <= outputs@.len(),
                    *input == Some(*want),
                    forall|k: int|
                        0 <= k < i ==> !((#[trigger] outputs@[k]) is Some && outputs@[k]->0@
                            == want@),
                decreases outputs@.len() - i,
            {
                match &outputs[i] {
                    Some(output) => {
                        if crate::text::same_text(output.as_str(), want.as_str()) {
                            assert(outputs@[i as int]->0@ == want@);
                            return true;
                        }
                    },
                    None => {},
                }
                i += 1;
            }
            false
        },
    }
}

/// The first output whose path is a directory.
pub fn output_conflicts_with_dir(is_dir: &Vec<bool>) -> (at: Option<usize>)
    ensures
        match at {
            Some(i) => i < is_dir@.len() && is_dir@[i as int] && forall|k: int|
                0 <= k < i ==> !#[trigger] is_dir@[k],
            None => forall|k: int| 0 <= k < is_dir@.len() ==> !#[trigger] is_dir@[k],
        },
{
    let mut i: usize = 0;
    while i < is_dir.len()
        invariant
            i <= is_dir@.len(),
            forall|k: int| 0 <= k < i ==> !#[trigger] is_dir@[k],
        decreases is_dir@.len() - i,
    {
        if is_dir[i] {
            return Some(i);
        }
        i += 1;
    }
    None
}

/// Why dependency rules are not written.
#[derive(Clone, Copy, PartialEq, Eq, Structural, Debug)]
pub enum DepInfoFault {
    InputFileWouldBeOverWritten,
    /// The output of this number is a directory.
    GeneratedFileConflictsWithDirectory(usize),
    TempsDirError,
    ErrorWritingDependencies,
    OutDirError,
}

/// What keeps the dependency rules from being written: an output that would overwrite the input
/// file, or one that is a directory. Only an input that is a file, and a session that creates
/// files, can come to that.
pub fn dep_info_fault(
    input_is_file: bool,
    will_create_output_file: bool,
    overwrites_input: bool,
    is_dir: &Vec<bool>,
) -> (fault: Option<DepInfoFault>)
    ensures
        !(input_is_file && will_create_output_file) ==> fault is None,
        input_is_file && will_create_output_file && overwrites_input ==> fault == Some(
            DepInfoFault::InputFileWouldBeOverWritten,
        ),
        input_is_file && will_create_output_file && !overwrites_input ==> match fault {
            Some(DepInfoFault::GeneratedFileConflictsWithDirectory(i)) => i < is_dir@.len()
                && is_dir@[i as int] && forall|k: int| 0 <= k < i ==> !#[trigger] is_dir@[k],
            Some(_) => false,
            None => forall|k: int| 0 <= k < is_dir@.len() ==> !#[trigger] is_dir@[k],
        },
{
    if !input_is_file || !will_create_output_file {
        return None;
    }
    if overwrites_input {
        return Some(DepInfoFault::InputFileWouldBeOverWritten);
    }
    match output_conflicts_with_dir(is_dir) {
        Some(i) => Some(DepInfoFault::GeneratedFileConflictsWithDirectory(i)),
        None => None,
    }
}

/// Whether dependency rules are all that is asked for, so that no output directory is made.
pub fn only_dep_info(outputs: &Vec<OutputEntry>) -> (yes: bool)
    ensures
        yes == (outputs@.len() == 1 && outputs@[0].kind == OutputType::DepInfo),
{
    outputs.len() == 1 && outputs[0].kind == OutputType::DepInfo
}

/// A step of writing the dependency rules of a crate.
#[derive(Clone, Copy, PartialEq, Eq, Structural, Debug)]
pub enum DepInfoStep {
    /// The fault is emitted, and the compiler gives up.
    GiveUp(DepInfoFault),
    CreateTempsDir,
    WriteDeps,
    /// Whoever reads the compiler's messages is told of the file.
    NotifyArtifact,
    CreateOutputDir,
}

/// What each step of writing dependency rules comes to.
#[derive(Clone, Copy, PartialEq, Eq, Structural, Debug)]
pub struct DepInfoFacts {
    /// What keeps the rules from being written.
    pub fault: Option<DepInfoFault>,
    /// If there is a directory for temporary files: whether it can be made.
    pub temps_dir: Option<bool>,
    /// Whether dependency rules are asked for.
    pub wanted: bool,
    /// Whether they can be written.
    pub written: bool,
    /// Whether files that were written are told of.
    pub notify: bool,
    /// If there is a directory for outputs: whether it can be made.
    pub output_dir: Option<bool>,
    /// Whether dependency rules are all that is asked for.
    pub only_dep_info: bool,
}

/// The steps that make a directory, if it is wanted.
pub open spec fn directory_steps(
    dir: Option<bool>,
    step: DepInfoStep,
    fault: DepInfoFault,
) -> Seq<DepInfoStep> {
    match dir {
        None => Seq::empty(),
        Some(true) => seq![step],
        Some(false) => seq![step, DepInfoStep::GiveUp(fault)],
    }
}

/// The steps that write the rules, if they are asked for.
pub open spec fn rule_steps(facts: DepInfoFacts) -> Seq<DepInfoStep> {
    if !facts.wanted {
        Seq::empty()
    } else if !facts.written {
        seq![
            DepInfoStep::WriteDeps,
            DepInfoStep::GiveUp(DepInfoFault::ErrorWritingDependencies),
        ]
    } else if facts.notify {
        seq![DepInfoStep::WriteDeps, DepInfoStep::NotifyArtifact]
    } else {
        seq![DepInfoStep::WriteDeps]
    }
}

/// The steps of writing dependency rules.
pub open spec fn dep_info_steps(facts: DepInfoFacts) -> Seq<DepInfoStep> {
    let temps = directory_steps(
        facts.temps_dir,
        DepInfoStep::CreateTempsDir,
        DepInfoFault::TempsDirError,
    );
    match facts.fault {
        Some(fault) => seq![DepInfoStep::GiveUp(fault)],
        None => if facts.temps_dir == Some(false) {
            temps
        } else {
            temps + rule_steps(facts) + (if facts.only_dep_info || (facts.wanted
                && !facts.written) {
                Seq::empty()
            } else {
                directory_steps(
                    facts.output_dir,
                    DepInfoStep::CreateOutputDir,
                    DepInfoFault::OutDirError,
                )
            })
        },
    }
}

/// The steps of writing the dependency rules of a crate: first it is seen to that nothing is
/// overwritten, and the directory for outputs is made last, for those that come after.
pub fn write_dep_info(facts: DepInfoFacts) -> (steps: Vec<DepInfoStep>)
    ensures
        steps@ == dep_info_steps(facts),
{
    let mut steps: Vec<DepInfoStep> = Vec::new();
    match facts.fault {
        Some(fault) => {
            steps.push(DepInfoStep::GiveUp(fault));
            assert(steps@ =~= dep_info_steps(facts));
            return steps;
        },
        None => {},
    }
    match facts.temps_dir {
        Some(made) => {
            steps.push(DepInfoStep::CreateTempsDir);
            if !made {
                steps.push(DepInfoStep::GiveUp(DepInfoFault::TempsDirError));
                assert(steps@ =~= dep_info_steps(facts));
                return steps;
            }
        },
        None => {},
    }
    if facts.wanted {
        steps.push(DepInfoStep::WriteDeps);
        if !facts.written {
            steps.push(DepInfoStep::GiveUp(DepInfoFault::ErrorWritingDependencies));
            assert(steps@ =~= dep_info_steps(facts));
            return steps;
        }
        if facts.notify {
            steps.push(DepInfoStep::NotifyArtifact);
        }
    }
    if !facts.only_dep_info {
        match facts.output_dir {
            Some(made) => {
                steps.push(DepInfoStep::CreateOutputDir);
                if !made {
                    steps.push(DepInfoStep::GiveUp(DepInfoFault::OutDirError));
                }
            },
            None => {},
        }
    }
    assert(steps@ =~= dep_info_steps(facts));
    steps
}

/// A step of writing the interface of a crate.
#[derive(Clone, Copy, PartialEq, Eq, Structural, Debug)]
pub enum InterfaceStep {
    PrintCrate,
    CreateFile,
    WriteFile,
    /// The file's error is emitted, and the compiler gives up.
    GiveUp,
}

/// The steps of writing the interface of a crate.
pub open spec fn interface_steps(
    types: Seq<CrateType>,
    created: bool,
    written: bool,
) -> Seq<InterfaceStep> {
    if !types.contains(CrateType::Sdylib) {
        Seq::empty()
    } else {
        seq![InterfaceStep::PrintCrate, InterfaceStep::CreateFile] + (if !created {
            seq![InterfaceStep::GiveUp]
        } else if !written {
            seq![InterfaceStep::WriteFile, InterfaceStep::GiveUp]
        } else {
            seq![InterfaceStep::WriteFile]
        })
    }
}

/// The steps of writing the interface of a crate, given whether its file could be `created` and
/// `written`. Only a crate that is made into a dynamic library with a stable interface has one.
pub fn write_interface(types: &Vec<CrateType>, created: bool, written: bool) -> (steps: Vec<
    InterfaceStep,
>)
    ensures
        steps@ == interface_steps(types@, created, written),
{
    let mut steps: Vec<InterfaceStep> = Vec::new();
    if writes_interface(types) {
        steps.push(InterfaceStep::PrintCrate);
        steps.push(InterfaceStep::CreateFile);
        if created {
            steps.push(InterfaceStep::WriteFile);
        }
        if !created || !written {
            steps.push(InterfaceStep::GiveUp);
        }
    }
    assert(steps@ =~= interface_steps(types@, created, written));
    steps
}

/// Where something would be overwritten, or a directory is in the way, the rules are not written.
pub proof fn law_a_fault_writes_nothing(facts: DepInfoFacts)
    requires
        facts.fault is Some,
    ensures
        !dep_info_steps(facts).contains(DepInfoStep::WriteDeps),
        dep_info_steps(facts).last() == DepInfoStep::GiveUp(facts.fault->0),
{
}

/// Nothing is done after the compiler has given up.
pub proof fn law_giving_up_is_the_last_step(facts: DepInfoFacts, i: int)
    requires
        0 <= i < dep_info_steps(facts).len(),
        dep_info_steps(facts)[i] is GiveUp,
    ensures
        i == dep_info_steps(facts).len() - 1,
{
}

/// Whether dependency rules are asked for.
pub fn wants_dep_info(outputs: &Vec<OutputEntry>) -> (yes: bool)
    ensures
        yes == exists|i: int|
            0 <= i < outputs@.len() && (#[trigger] outputs@[i]).kind == OutputType::DepInfo,
{
    let mut i: usize = 0;
    while i < outputs.len()
        invariant
            i <= outputs@.len(),
            forall|k: int| 0 <= k < i ==> (#[trigger] outputs@[k]).kind != OutputType::DepInfo,
        decreases outputs@.len() - i,
    {
        if outputs[i].kind == OutputType::DepInfo {
            return true;
        }
        i += 1;
    }
    false
}

/// The output counts: on a terminal only text does.
pub open spec fn counts(o: OutputEntry, terminal: bool) -> bool {
    !terminal || o.text
}

/// How many outputs were asked to go to the standard output.
pub open spec fn named_count(outputs: Seq<OutputEntry>, terminal: bool) -> nat
    decreases outputs.len(),
{
    if outputs.len() == 0 {
        0
    } else {
        named_count(outputs.drop_last(), terminal) + (if counts(outputs.last(), terminal)
            && outputs.last().file == Some(OutFileName::Stdout) {
            1nat
        } else {
            0
        })
    }
}

/// How many outputs were not asked to go anywhere.
pub open spec fn unnamed_count(outputs: Seq<OutputEntry>, terminal: bool) -> nat
    decreases outputs.len(),
{
    if outputs.len() == 0 {
        0
    } else {
        unnamed_count(outputs.drop_last(), terminal) + (if counts(outputs.last(), terminal)
            && outputs.last().file is None {
            1nat
        } else {
            0
        })
    }
}

fn count_outputs(outputs: &Vec<OutputEntry>, terminal: bool) -> (counts: (usize, usize))
    ensures
        counts.0 == named_count(outputs@, terminal),
        counts.1 == unnamed_count(outputs@, terminal),
{
    let mut named: usize = 0;
    let mut unnamed: usize = 0;
    let mut i: usize = 0;
    assert(outputs@.take(0) =~= Seq::<OutputEntry>::empty());
    while i < outputs.len()
        invariant
            i <= outputs@.len(),
            named <= i,
            unnamed <= i,
            named == named_count(outputs@.take(i as int), terminal),
            unnamed == unnamed_count(outputs@.take(i as int), terminal),
        decreases outputs@.len() - i,
    {
        proof {
            assert(outputs@.take(i + 1).drop_last() =~= outputs@.take(i as int));
            assert(outputs@.take(i + 1).last() == outputs@[i as int]);
        }
        if !terminal || outputs[i].text {
            match outputs[i].file {
                Some(OutFileName::Stdout) => {
                    named += 1;
                },
                Some(OutFileName::Real) => {},
                None => {
                    unnamed += 1;
                },
            }
        }
        i += 1;
    }
    assert(outputs@.take(i as int) =~= outputs@);
    (named, unnamed)
}

/// More than one output would go to the standard output.
pub open spec fn crowds_stdout(
    outputs: Seq<OutputEntry>,
    terminal: bool,
    single_output_file_is_stdout: bool,
) -> bool {
    named_count(outputs, terminal) > 1 || (unnamed_count(outputs, terminal) > 1
        && single_output_file_is_stdout)
}

/// Whether more than one output would go to the standard output. On a terminal only text counts.
pub fn multiple_output_types_to_stdout(
    outputs: &Vec<OutputEntry>,
    stdout_is_terminal: bool,
    single_output_file_is_stdout: bool,
) -> (yes: bool)
    ensures
        yes == crowds_stdout(outputs@, stdout_is_terminal, single_output_file_is_stdout),
{
    let counts = count_outputs(outputs, stdout_is_terminal);
    counts.0 > 1 || (counts.1 > 1 && single_output_file_is_stdout)
}

/// A file that the output was asked to go to.
pub struct OutputFile {
    pub name: OutFileName,
    /// The name without directory and extension.
    pub filestem: String,
    pub parent: String,
}

/// What decides on the names of outputs.
pub struct OutputFacts {
    pub outputs: Vec<OutputEntry>,
    pub stdout_is_terminal: bool,
    /// The crate's name, if the command line or an attribute gives one.
    pub crate_name: Option<String>,
    /// The number that tells one invocation's files from another's, if the session keeps results.
    pub invocation: Option<u32>,
    pub output_file: Option<OutputFile>,
    pub output_dir: Option<String>,
    /// The name of the input without its extension.
    pub input_filestem: String,
    pub has_extra_filename: bool,
}

/// What is suspicious about the options.
#[derive(Clone, Copy, PartialEq, Eq, Structural, Debug)]
pub enum OutputWarning {
    MultipleOutputTypesAdaption,
    IgnoringExtraFilename,
    IgnoringOutDir,
}

/// The names of outputs.
pub struct OutputFilenames {
    pub out_directory: String,
    /// The crate's name in file names.
    pub crate_stem: String,
    pub filestem: String,
    /// Whether the one file that was asked for is used.
    pub single_output_file: bool,
    pub invocation_temp: Option<String>,
    pub warnings: Vec<OutputWarning>,
}

/// The warnings about the options for an output file.
pub open spec fn output_warnings(facts: OutputFacts) -> Seq<OutputWarning> {
    let first = if unnamed_count(facts.outputs@, false) > 1 {
        seq![OutputWarning::MultipleOutputTypesAdaption]
    } else if facts.has_extra_filename {
        seq![OutputWarning::IgnoringExtraFilename]
    } else {
        Seq::empty()
    };
    if facts.output_dir is Some {
        first.push(OutputWarning::IgnoringOutDir)
    } else {
        first
    }
}

/// The names of outputs. `None` if more than one output would go to the standard output.
pub fn build_output_filenames(facts: &OutputFacts) -> (names: Option<OutputFilenames>)
    ensures
        names is None == crowds_stdout(
            facts.outputs@,
            facts.stdout_is_terminal,
            facts.output_file matches Some(file) && file.name == OutFileName::Stdout,
        ),
        names matches Some(names) ==> {
            let stem = match facts.output_file {
                Some(file) => file.filestem@,
                None => match facts.crate_name {
                    Some(name) => name@,
                    None => facts.input_filestem@,
                },
            };
            &&& names.filestem@ == stem
            &&& names.crate_stem@ == (match facts.crate_name {
                Some(name) => name@,
                None => underscored(stem),
            })
            &&& names.out_directory@ == (match facts.output_file {
                Some(file) => file.parent@,
                None => match facts.output_dir {
                    Some(dir) => dir@,
                    None => Seq::empty(),
                },
            })
            &&& names.single_output_file == (facts.output_file is Some && unnamed_count(
                facts.outputs@,
                false,
            ) <= 1)
            &&& names.warnings@ == (if facts.output_file is Some {
                output_warnings(*facts)
            } else {
                Seq::empty()
            })
            &&& names.invocation_temp is Some == facts.invocation is Some
            &&& names.invocation_temp matches Some(temp) ==> temp@ == zero_padded(
                base_digits(facts.invocation->0 as nat, 36),
                digit_count(u32::MAX as nat, 36),
            )
        },
{
    let to_stdout = match &facts.output_file {
        Some(file) => match file.name {
            OutFileName::Stdout => true,
            OutFileName::Real => false,
        },
        None => false,
    };
    if multiple_output_types_to_stdout(&facts.outputs, facts.stdout_is_terminal, to_stdout) {
        return None;
    }
    let invocation_temp = match facts.invocation {
        Some(suffix) => Some(suffix.to_base_fixed_len(CASE_INSENSITIVE).to_text()),
        None => None,
    };
    let mut warnings: Vec<OutputWarning> = Vec::new();
    let mut single_output_file = false;
    let mut out_directory = String::new();
    let filestem = match &facts.output_file {
        None => {
            match &facts.output_dir {
                Some(dir) => {
                    out_directory = dir.clone();
                },
                None => {
                    assert(out_directory@ =~= Seq::<char>::empty());
                },
            }
            match &facts.crate_name {
                Some(name) => name.clone(),
                None => facts.input_filestem.clone(),
            }
        },
        Some(file) => {
            out_directory = file.parent.clone();
            let unnamed_output_types = count_outputs(&facts.outputs, false).1;
            if unnamed_output_types > 1 {
                warnings.push(OutputWarning::MultipleOutputTypesAdaption);
            } else {
                if facts.has_extra_filename {
                    warnings.push(OutputWarning::IgnoringExtraFilename);
                }
                single_output_file = true;
            }
            if facts.output_dir.is_some() {
                warnings.push(OutputWarning::IgnoringOutDir);
            }
            assert(warnings@ =~= output_warnings(*facts));
            file.filestem.clone()
        },
    };
    let crate_stem = match &facts.crate_name {
        Some(name) => name.clone(),
        None => replace(filestem.as_str(), '-', "_"),
    };
    Some(
        OutputFilenames {
            out_directory,
            crate_stem,
            filestem,
            single_output_file,
            invocation_temp,
            warnings,
        },
    )
}

/// An output more adds its path behind the others: an executable without an exact name one path for
/// each crate type, and dependency rules none where they are not to be seen or go to the standard
/// output.
pub proof fn law_an_output_adds_its_path(
    outputs: Seq<OutputEntry>,
    o: OutputEntry,
    exact_name: bool,
    crate_paths: Seq<Seq<char>>,
    omit_d_target: bool,
)
    ensures
        generated_paths(Seq::empty(), exact_name, crate_paths, omit_d_target) == Seq::<
            Seq<char>,
        >::empty(),
        generated_paths(outputs.push(o), exact_name, crate_paths, omit_d_target)
            == generated_paths(outputs, exact_name, crate_paths, omit_d_target) + (match o.kind {
            OutputType::Exe => if exact_name {
                seq![o.path@]
            } else {
                crate_paths
            },
            OutputType::DepInfo => if omit_d_target || o.stdout {
                Seq::empty()
            } else {
                seq![o.path@]
            },
            OutputType::Other => seq![o.path@],
        }),
{
    assert(outputs.push(o).drop_last() =~= outputs);
    let before = generated_paths(outputs, exact_name, crate_paths, omit_d_target);
    assert(before.push(o.path@) =~= before + seq![o.path@]);
    assert(before + Seq::<Seq<char>>::empty() =~= before);
}

/// How many outputs fit a condition.
pub open spec fn how_many(outputs: Seq<OutputEntry>, fits: spec_fn(OutputEntry) -> bool) -> nat {
    outputs.filter(fits).len()
}

proof fn lemma_counts(outputs: Seq<OutputEntry>, terminal: bool)
    ensures
        named_count(outputs, terminal) == how_many(
            outputs,
            |o: OutputEntry| (terminal ==> o.text) && o.file == Some(OutFileName::Stdout),
        ),
        unnamed_count(outputs, terminal) == how_many(
            outputs,
            |o: OutputEntry| (terminal ==> o.text) && o.file is None,
        ),
    decreases outputs.len(),
{
    reveal(Seq::filter);
    if outputs.len() > 0 {
        lemma_counts(outputs.drop_last(), terminal);
    }
}

/// The standard output takes one output: the options are refused exactly if two are asked to go
/// there, or if everything goes there and two outputs go nowhere else. On a terminal only text
/// counts.
pub proof fn law_the_standard_output_takes_one(
    outputs: &Vec<OutputEntry>,
    terminal: bool,
    all_to_stdout: bool,
    refused: bool,
)
    requires
        call_ensures(multiple_output_types_to_stdout, (outputs, terminal, all_to_stdout), refused),
    ensures
        refused <==> how_many(
            outputs@,
            |o: OutputEntry| (terminal ==> o.text) && o.file == Some(OutFileName::Stdout),
        ) > 1 || (all_to_stdout && how_many(
            outputs@,
            |o: OutputEntry| (terminal ==> o.text) && o.file is None,
        ) > 1),
{
    lemma_counts(outputs@, terminal);
}

/// A file that was asked for is used unless two outputs would have to share it, and then there is a
/// warning; what else the options say is ignored with a warning exactly if a file was asked for.
pub proof fn law_a_file_is_not_shared(
    facts: &OutputFacts,
    names: Option<OutputFilenames>,
    w: OutputWarning,
)
    requires
        call_ensures(build_output_filenames, (facts,), names),
        names is Some,
    ensures
        ({
            let shared = how_many(facts.outputs@, |o: OutputEntry| o.file is None) > 1;
            &&& names->0.single_output_file <==> facts.output_file is Some && !shared
            &&& names->0.warnings@.contains(w) <==> facts.output_file is Some && (match w {
                OutputWarning::MultipleOutputTypesAdaption => shared,
                OutputWarning::IgnoringExtraFilename => !shared && facts.has_extra_filename,
                OutputWarning::IgnoringOutDir => facts.output_dir is Some,
            })
        }),
{
    lemma_counts(facts.outputs@, false);
    let terminal = false;
    let plain = |o: OutputEntry| o.file is None;
    let same = |o: OutputEntry| (terminal ==> o.text) && o.file is None;
    assert(plain =~= same);
    assert(unnamed_count(facts.outputs@, false) == how_many(facts.outputs@, same));
    let all = names->0.warnings@;
    if facts.output_file is Some {
        let first = if unnamed_count(facts.outputs@, false) > 1 {
            seq![OutputWarning::MultipleOutputTypesAdaption]
        } else if facts.has_extra_filename {
            seq![OutputWarning::IgnoringExtraFilename]
        } else {
            Seq::empty()
        };
        if first.len() > 0 {
            assert(all[0] == first[0]);
        }
        if facts.output_dir is Some {
            assert(all[all.len() - 1] == OutputWarning::IgnoringOutDir);
        }
    }
}

/// What names an output: the file that was asked for, else the crate's name, else the input's. The
/// crate's part of it has no dash unless the crate's own name has one.
pub proof fn law_an_output_has_a_name(facts: &OutputFacts, names: Option<OutputFilenames>)
    requires
        call_ensures(build_output_filenames, (facts,), names),
        names is Some,
    ensures
        facts.output_file is Some ==> names->0.filestem@ == facts.output_file->0.filestem@
            && names->0.out_directory@ == facts.output_file->0.parent@,
        facts.output_file is None && facts.crate_name is Some ==> names->0.filestem@
            == facts.crate_name->0@,
        facts.output_file is None && facts.crate_name is None ==> names->0.filestem@
            == facts.input_filestem@,
        facts.output_file is None && facts.output_dir is Some ==> names->0.out_directory@
            == facts.output_dir->0@,
        facts.output_file is None && facts.output_dir is None ==> names->0.out_directory@.len()
            == 0,
        facts.crate_name is Some ==> names->0.crate_stem@ == facts.crate_name->0@,
        facts.crate_name is None ==> names->0.crate_stem@.len() == names->0.filestem@.len()
            && forall|i: int|
            0 <= i < names->0.filestem@.len() ==> #[trigger] names->0.crate_stem@[i] == (
            if names->0.filestem@[i] == '-' {
                '_'
            } else {
                names->0.filestem@[i]
            }),
{
    lemma_underscored(names->0.filestem@);
}

/// Where a step of writing dependency rules stands.
pub open spec fn dep_info_place(s: DepInfoStep) -> int {
    match s {
        DepInfoStep::CreateTempsDir => 0,
        DepInfoStep::WriteDeps => 1,
        DepInfoStep::NotifyArtifact => 2,
        DepInfoStep::CreateOutputDir => 3,
        DepInfoStep::GiveUp(_) => 4,
    }
}

/// When a step is taken: each as far as it is wanted and nothing before it went wrong. The steps
/// come in one order, each once, and what went wrong is what the compiler gives up for.
pub proof fn law_rules_are_written_step_by_step(
    facts: DepInfoFacts,
    steps: Vec<DepInfoStep>,
    s: DepInfoStep,
)
    requires
        call_ensures(write_dep_info, (facts,), steps),
    ensures
        ({
            let free = facts.fault is None;
            let temps = free && facts.temps_dir != Some(false);
            let rules = temps && (facts.wanted ==> facts.written);
            steps@.contains(s) <==> (match s {
                DepInfoStep::CreateTempsDir => free && facts.temps_dir is Some,
                DepInfoStep::WriteDeps => temps && facts.wanted,
                DepInfoStep::NotifyArtifact => rules && facts.wanted && facts.notify,
                DepInfoStep::CreateOutputDir => rules && !facts.only_dep_info
                    && facts.output_dir is Some,
                DepInfoStep::GiveUp(fault) => if !free {
                    facts.fault == Some(fault)
                } else if !temps {
                    fault == DepInfoFault::TempsDirError
                } else if !rules {
                    fault == DepInfoFault::ErrorWritingDependencies
                } else {
                    fault == DepInfoFault::OutDirError && !facts.only_dep_info
                        && facts.output_dir == Some(false)
                },
            })
        }),
        forall|i: int, j: int|
            0 <= i < j < steps@.len() ==> dep_info_place(#[trigger] steps@[i]) < dep_info_place(
                #[trigger] steps@[j],
            ),
{
    let all = steps@;
    let a = if facts.fault is Some {
        seq![DepInfoStep::GiveUp(facts.fault->0)]
    } else {
        directory_steps(
            facts.temps_dir,
            DepInfoStep::CreateTempsDir,
            DepInfoFault::TempsDirError,
        )
    };
    let temps = facts.fault is None && facts.temps_dir != Some(false);
    let b = if temps {
        rule_steps(facts)
    } else {
        Seq::empty()
    };
    let c = if temps && !facts.only_dep_info && (facts.wanted ==> facts.written) {
        directory_steps(
            facts.output_dir,
            DepInfoStep::CreateOutputDir,
            DepInfoFault::OutDirError,
        )
    } else {
        Seq::empty()
    };
    assert(all =~= a + b + c);
    if a.len() > 0 {
        assert(all[0] == a[0]);
    }
    if a.len() > 1 {
        assert(all[1] == a[1]);
    }
    if b.len() > 0 {
        assert(all[a.len() as int] == b[0]);
    }
    if b.len() > 1 {
        assert(all[(a.len() + 1) as int] == b[1]);
    }
    if c.len() > 0 {
        assert(all[(a + b).len() as int] == c[0]);
    }
    if c.len() > 1 {
        assert(all[((a + b).len() + 1) as int] == c[1]);
    }
}

/// An interface is printed and written exactly if a dynamic library with a stable interface is made;
/// the compiler gives up where the file cannot be made or written, and after that does no more.
pub proof fn law_an_interface_is_written_for_its_library(
    types: &Vec<CrateType>,
    created: bool,
    written: bool,
    steps: Vec<InterfaceStep>,
)
    requires
        call_ensures(write_interface, (types, created, written), steps),
    ensures
        steps@.len() > 0 <==> types@.contains(CrateType::Sdylib),
        steps@.len() > 0 ==> {
            &&& steps@[0] == InterfaceStep::PrintCrate
            &&& steps@[1] == InterfaceStep::CreateFile
            &&& steps@.contains(InterfaceStep::WriteFile) <==> created
            &&& created ==> steps@[2] == InterfaceStep::WriteFile
            &&& steps@.contains(InterfaceStep::GiveUp) <==> !(created && written)
            &&& !(created && written) ==> steps@.last() == InterfaceStep::GiveUp
            &&& steps@.no_duplicates()
        },
{
    if created {
        assert(steps@.len() > 0 ==> steps@[2] == InterfaceStep::WriteFile);
    }
    if !(created && written) {
        assert(steps@.len() > 0 ==> steps@[steps@.len() - 1] == InterfaceStep::GiveUp);
    }
}

} // verus!
