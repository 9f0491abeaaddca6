//! Dependency rules: which files and environment variables a compilation read, as a makefile.

use vstd::prelude::*;
use vstd::string::StringExecFns;

use crate::id_map::with_id;
use crate::sort::lemma_arrangements_map;
use crate::sort::lemma_text_leq_total;
use crate::sort::lemma_text_leq_transitive;
use crate::sort::is_text_leq;
use crate::sort::sort;
use crate::sort::text_leq;
use crate::sort::TotalOrder;
use crate::text::decimal;
use crate::text::decimal_text;
use crate::text::replace;
use crate::text::replaced;
use crate::text_map::TextMap;

verus! {

/// The file name with its spaces escaped.
pub open spec fn escaped_filename(name: Seq<char>) -> Seq<char> {
    replaced(name, ' ', "\\ "@)
}

pub fn escape_dep_filename(filename: &str) -> (s: String)
    ensures
        s@ == escaped_filename(filename@),
{
    replace(filename, ' ', "\\ ")
}

/// The escape of one character of an environment variable.
pub open spec fn escaped_env_char(c: char) -> Seq<char> {
    if c == '\n' {
        seq!['\\', 'n']
    } else if c == '\r' {
        seq!['\\', 'r']
    } else if c == '\\' {
        seq!['\\', '\\']
    } else {
        seq![c]
    }
}

/// The text with its line ends and backslashes escaped.
pub open spec fn escaped_env(s: Seq<char>) -> Seq<char>
    decreases s.len(),
{
    if s.len() == 0 {
        Seq::empty()
    } else {
        escaped_env(s.drop_last()) + escaped_env_char(s.last())
    }
}

pub fn escape_dep_env(s: &str) -> (escaped: String)
    ensures
        escaped@ == escaped_env(s@),
{
    let chars = crate::text::to_chars(s);
    let mut escaped = String::new();
    let mut i: usize = 0;
    assert(chars@.take(0) =~= Seq::<char>::empty());
    assert(escaped@ =~= Seq::<char>::empty());
    while i < chars.len()
        invariant
            i <= chars@.len(),
            escaped@ == escaped_env(chars@.take(i as int)),
        decreases chars@.len() - i,
    {
        let ghost before = escaped@;
        let c = chars[i];
        if c == '\n' {
            escaped.push('\\');
            escaped.push('n');
        } else if c == '\r' {
            escaped.push('\\');
            escaped.push('r');
        } else if c == '\\' {
            escaped.push('\\');
            escaped.push('\\');
        } else {
            escaped.push(c);
        }
        proof {
            assert(chars@.take(i + 1).drop_last() =~= chars@.take(i as int));
            assert(escaped@ =~= before + escaped_env_char(c));
        }
        i += 1;
    }
    assert(chars@.take(i as int) =~= chars@);
    escaped
}

/// An escaped text read back.
pub open spec fn unescaped_env(s: Seq<char>) -> Seq<char>
    decreases s.len(),
{
    if s.len() == 0 {
        Seq::empty()
    } else if s[0] == '\\' && s.len() >= 2 {
        let c = if s[1] == 'n' {
            '\n'
        } else if s[1] == 'r' {
            '\r'
        } else {
            s[1]
        };
        seq![c] + unescaped_env(s.skip(2))
    } else {
        seq![s[0]] + unescaped_env(s.skip(1))
    }
}

proof fn lemma_escaped_env_front(s: Seq<char>)
    requires
        s.len() > 0,
    ensures
        escaped_env(s) == escaped_env_char(s[0]) + escaped_env(s.skip(1)),
    decreases s.len(),
{
    if s.len() == 1 {
        assert(s.drop_last() =~= Seq::<char>::empty());
        assert(s.skip(1) =~= Seq::<char>::empty());
        assert(escaped_env(s) =~= escaped_env_char(s[0]) + escaped_env(s.skip(1)));
    } else {
        lemma_escaped_env_front(s.drop_last());
        assert(s.drop_last().skip(1) =~= s.skip(1).drop_last());
        assert(s.skip(1).last() == s.last());
        assert(escaped_env(s) =~= escaped_env_char(s[0]) + escaped_env(s.skip(1)));
    }
}

/// An escaped variable can be read back, and has no line ends in it.
pub proof fn law_escaped_variables_read_back(s: Seq<char>)
    ensures
        unescaped_env(escaped_env(s)) == s,
        !escaped_env(s).contains('\n'),
        !escaped_env(s).contains('\r'),
    decreases s.len(),
{
    if s.len() > 0 {
        law_escaped_variables_read_back(s.skip(1));
        lemma_escaped_env_front(s);
        let e = escaped_env(s);
        let head = escaped_env_char(s[0]);
        let rest = escaped_env(s.skip(1));
        assert(e == head + rest);
        assert(e.skip(head.len() as int) =~= rest);
        assert(unescaped_env(e) =~= seq![s[0]] + s.skip(1));
        assert(s =~= seq![s[0]] + s.skip(1));
        assert forall|i: int| 0 <= i < e.len() implies e[i] != '\n' && e[i] != '\r' by {
            if i >= head.len() {
                assert(e[i] == rest[i - head.len()]);
                assert(rest.contains(rest[i - head.len()]));
            }
        }
    } else {
        assert(unescaped_env(escaped_env(s)) =~= s);
    }
}

/// What is known of a file.
pub struct FileDep {
    pub len: u64,
    /// The checksum as it is written, if there is one.
    pub checksum: Option<String>,
}

/// A source file of the session.
pub struct SourceDep {
    pub name: String,
    /// Whether it is a file, and not generated.
    pub real: bool,
    /// Whether it belongs to another crate.
    pub imported: bool,
    pub file: FileDep,
}

/// The files of a crate that was used.
pub struct CrateSource {
    pub dylib: Option<String>,
    pub rlib: Option<String>,
    pub rmeta: Option<String>,
}

/// What is tracked besides the source files.
pub struct DepInputs {
    /// Files that were marked to be tracked.
    pub file_depinfo: Vec<String>,
    pub profile_use: Option<String>,
    pub profile_sample_use: Option<String>,
    pub debugger_visualizers: Vec<String>,
    /// Whether binary dependencies are tracked too.
    pub binary_dep_depinfo: bool,
    pub codegen_backend: Option<String>,
    pub crates: Vec<CrateSource>,
}

/// The escaped names of files.
pub open spec fn escaped_names(names: Seq<String>) -> Seq<Seq<char>> {
    Seq::new(names.len(), |i: int| escaped_filename(names[i]@))
}

/// The escaped name of a file, if there is one.
pub open spec fn escaped_option(name: Option<String>) -> Seq<Seq<char>> {
    match name {
        Some(name) => seq![escaped_filename(name@)],
        None => Seq::empty(),
    }
}

/// The files of the crates that were used, crate by crate.
pub open spec fn crate_files(crates: Seq<CrateSource>) -> Seq<Seq<char>>
    decreases crates.len(),
{
    if crates.len() == 0 {
        Seq::empty()
    } else {
        let c = crates.last();
        crate_files(crates.drop_last()) + escaped_option(c.dylib) + escaped_option(c.rlib)
            + escaped_option(c.rmeta)
    }
}

/// The file of a codegen backend. A name without a dot in it is not a path.
pub open spec fn backend_file(backend: Option<String>) -> Seq<Seq<char>> {
    match backend {
        Some(name) => if name@.contains('.') {
            seq![name@]
        } else {
            Seq::empty()
        },
        None => Seq::empty(),
    }
}

/// The files that are tracked besides the source files, in order.
pub open spec fn extra_files(inputs: DepInputs) -> Seq<Seq<char>> {
    let own = escaped_names(inputs.file_depinfo@) + escaped_option(inputs.profile_use)
        + escaped_option(inputs.profile_sample_use) + escaped_names(
        inputs.debugger_visualizers@,
    );
    if inputs.binary_dep_depinfo {
        own + backend_file(inputs.codegen_backend) + crate_files(inputs.crates@)
    } else {
        own
    }
}

fn push_escaped_option(out: &mut Vec<String>, name: &Option<String>)
    ensures
        crate::text::texts(final(out)@) == crate::text::texts(old(out)@) + escaped_option(*name),
{
    let ghost before = crate::text::texts(out@);
    match name {
        Some(name) => {
            out.push(escape_dep_filename(name.as_str()));
            assert(crate::text::texts(out@) =~= before + escaped_option(Some(*name)));
        },
        None => {
            assert(crate::text::texts(out@) =~= before + Seq::<Seq<char>>::empty());
        },
    }
}

fn push_escaped_names(out: &mut Vec<String>, names: &Vec<String>)
    ensures
        crate::text::texts(final(out)@) == crate::text::texts(old(out)@) + escaped_names(names@),
{
    let ghost before = crate::text::texts(out@);
    let ghost all = escaped_names(names@);
    let mut i: usize = 0;
    assert(crate::text::texts(out@) =~= before + all.take(0));
    while i < names.len()
        invariant
            i <= names@.len(),
            all == escaped_names(names@),
            crate::text::texts(out@) == before + all.take(i as int),
        decreases names@.len() - i,
    {
        let ghost so_far = crate::text::texts(out@);
        out.push(escape_dep_filename(names[i].as_str()));
        assert(crate::text::texts(out@) =~= so_far.push(all[i as int]));
        i += 1;
        assert(crate::text::texts(out@) =~= before + all.take(i as int));
    }
    assert(all.take(i as int) =~= all);
}

fn has_dot(name: &str) -> (yes: bool)
    ensures
        yes == name@.contains('.'),
{
    let chars = crate::text::to_chars(name);
    let mut i: usize = 0;
    while i < chars.len()
        invariant
            chars@ == name@,
            i <= chars@.len(),
            forall|k: int| 0 <= k < i ==> chars@[k] != '.',
        decreases chars@.len() - i,
    {
        if chars[i] == '.' {
            assert(name@[i as int] == '.');
            return true;
        }
        i += 1;
    }
    false
}

/// The files that are tracked besides the source files, in order, as they are written.
pub fn extra_tracked_files(inputs: &DepInputs) -> (out: Vec<String>)
    ensures
        crate::text::texts(out@) == extra_files(*inputs),
{
    let mut out: Vec<String> = Vec::new();
    assert(crate::text::texts(out@) =~= Seq::<Seq<char>>::empty());
    push_escaped_names(&mut out, &inputs.file_depinfo);
    push_escaped_option(&mut out, &inputs.profile_use);
    push_escaped_option(&mut out, &inputs.profile_sample_use);
    push_escaped_names(&mut out, &inputs.debugger_visualizers);
    let ghost own = escaped_names(inputs.file_depinfo@) + escaped_option(inputs.profile_use)
        + escaped_option(inputs.profile_sample_use) + escaped_names(
        inputs.debugger_visualizers@,
    );
    assert(crate::text::texts(out@) =~= own);
    if !inputs.binary_dep_depinfo {
        return out;
    }
    match &inputs.codegen_backend {
        Some(backend) => {
            if has_dot(backend.as_str()) {
                out.push(backend.clone());
            }
        },
        None => {},
    }
    let ghost base = own + backend_file(inputs.codegen_backend);
    assert(crate::text::texts(out@) =~= base);
    let ghost crates = inputs.crates@;
    let mut i: usize = 0;
    assert(crates.take(0) =~= Seq::<CrateSource>::empty());
    assert(crate::text::texts(out@) =~= base + crate_files(crates.take(0)));
    while i < inputs.crates.len()
        invariant
            i <= crates.len(),
            crates == inputs.crates@,
            crate::text::texts(out@) == base + crate_files(crates.take(i as int)),
        decreases crates.len() - i,
    {
        let source = &inputs.crates[i];
        push_escaped_option(&mut out, &source.dylib);
        push_escaped_option(&mut out, &source.rlib);
        push_escaped_option(&mut out, &source.rmeta);
        proof {
            assert(crates.take(i + 1).drop_last() =~= crates.take(i as int));
            assert(crates.take(i + 1).last() == *source);
            assert(crate::text::texts(out@) =~= base + crate_files(crates.take(i + 1)));
        }
        i += 1;
    }
    assert(crates.take(i as int) =~= crates);
    out
}

/// The table of files once the source files are in it. Files that are generated or belong to
/// another crate are left out.
pub open spec fn source_table(sources: Seq<SourceDep>) -> Seq<(Seq<char>, FileDep)>
    decreases sources.len(),
{
    if sources.len() == 0 {
        Seq::empty()
    } else {
        let before = source_table(sources.drop_last());
        let s = sources.last();
        if s.real && !s.imported {
            with_id(before, escaped_filename(s.name@), s.file)
        } else {
            before
        }
    }
}

/// A table of files with more files in it. A file that is there already keeps its place.
pub open spec fn with_files(
    table: Seq<(Seq<char>, FileDep)>,
    files: Seq<(String, FileDep)>,
) -> Seq<(Seq<char>, FileDep)>
    decreases files.len(),
{
    if files.len() == 0 {
        table
    } else {
        with_id(with_files(table, files.drop_last()), files.last().0@, files.last().1)
    }
}

/// The table of files that a compilation depends on: its sources, and then the other files that
/// are tracked, under the names they are written by.
pub fn collect_files(sources: Vec<SourceDep>, extra: Vec<(String, FileDep)>) -> (table: TextMap<
    FileDep,
>)
    ensures
        table.wf(),
        table@ == with_files(source_table(sources@), extra@),
{
    let mut table: TextMap<FileDep> = TextMap::new();
    let ghost all = sources@;
    let ghost mut done: int = 0;
    let mut rest = sources;
    assert(all.take(0) =~= Seq::<SourceDep>::empty());
    while rest.len() > 0
        invariant
            0 <= done <= all.len(),
            rest@ == all.skip(done),
            table.wf(),
            table@ == source_table(all.take(done)),
        decreases rest@.len(),
    {
        let source = rest.remove(0);
        proof {
            assert(all.skip(done)[0] == all[done]);
            assert(rest@ =~= all.skip(done + 1));
            assert(all.take(done + 1).drop_last() =~= all.take(done));
            assert(all.take(done + 1).last() == source);
        }
        if source.real && !source.imported {
            table.insert(escape_dep_filename(source.name.as_str()), source.file);
        }
        proof {
            done = done + 1;
        }
    }
    assert(all.take(done) =~= all);
    let ghost base = table@;
    let ghost more = extra@;
    let ghost mut added: int = 0;
    let mut rest = extra;
    assert(more.take(0) =~= Seq::<(String, FileDep)>::empty());
    while rest.len() > 0
        invariant
            0 <= added <= more.len(),
            rest@ == more.skip(added),
            table.wf(),
            table@ == with_files(base, more.take(added)),
        decreases rest@.len(),
    {
        let file = rest.remove(0);
        proof {
            assert(more.skip(added)[0] == more[added]);
            assert(rest@ =~= more.skip(added + 1));
            assert(more.take(added + 1).drop_last() =~= more.take(added));
            assert(more.take(added + 1).last() == file);
        }
        table.insert(file.0, file.1);
        proof {
            added = added + 1;
        }
    }
    assert(more.take(added) =~= more);
    table
}

/// An environment variable that was read, and its value if it was set.
pub struct EnvDep {
    pub key: String,
    pub value: Option<String>,
}

/// A variable and its value.
pub type EnvModel = (Seq<char>, Option<Seq<char>>);

impl View for EnvDep {
    type V = EnvModel;

    open spec fn view(&self) -> EnvModel {
        (
            self.key@,
            match self.value {
                Some(value) => Some(value@),
                None => None,
            },
        )
    }
}

/// The order of variables: by name, and one that was not set before any value.
pub open spec fn env_leq(a: EnvModel, b: EnvModel) -> bool {
    if a.0 != b.0 {
        text_leq(a.0, b.0)
    } else {
        match (a.1, b.1) {
            (None, _) => true,
            (Some(_), None) => false,
            (Some(x), Some(y)) => text_leq(x, y),
        }
    }
}

impl TotalOrder for EnvDep {
    open spec fn leq(a: Self, b: Self) -> bool {
        env_leq(a@, b@)
    }

    proof fn lemma_total(a: Self, b: Self) {
        lemma_text_leq_total(a@.0, b@.0);
        if a@.0 == b@.0 {
            match (a@.1, b@.1) {
                (Some(x), Some(y)) => {
                    lemma_text_leq_total(x, y);
                },
                _ => {},
            }
        }
    }

    proof fn lemma_transitive(a: Self, b: Self, c: Self) {
        if a@.0 == b@.0 && b@.0 == c@.0 {
            match (a@.1, b@.1, c@.1) {
                (Some(x), Some(y), Some(z)) => {
                    lemma_text_leq_transitive(x, y, z);
                },
                _ => {},
            }
        } else {
            if a@.0 != b@.0 && b@.0 != c@.0 {
                lemma_text_leq_transitive(a@.0, b@.0, c@.0);
                if a@.0 == c@.0 {
                    lemma_text_leq_total(a@.0, b@.0);
                }
            }
        }
    }

    fn is_leq(a: &Self, b: &Self) -> (yes: bool) {
        if !crate::text::same_text(a.key.as_str(), b.key.as_str()) {
            return is_text_leq(a.key.as_str(), b.key.as_str());
        }
        match (&a.value, &b.value) {
            (None, _) => true,
            (Some(_), None) => false,
            (Some(x), Some(y)) => is_text_leq(x.as_str(), y.as_str()),
        }
    }
}

/// No variable comes after a later one.
pub open spec fn envs_sorted(envs: Seq<EnvModel>) -> bool {
    forall|i: int, j: int|
        0 <= i <= j < envs.len() ==> env_leq(#[trigger] envs[i], #[trigger] envs[j])
}

/// The variables with names and values escaped.
pub open spec fn escaped_envs(envs: Seq<EnvDep>) -> Seq<EnvModel> {
    envs.map_values(
        |e: EnvDep|
            (
                escaped_env(e.key@),
                match e.value {
                    Some(value) => Some(escaped_env(value@)),
                    None => None,
                },
            ),
    )
}

pub open spec fn env_models(envs: Seq<EnvDep>) -> Seq<EnvModel> {
    envs.map_values(|e: EnvDep| e@)
}

/// The comments about variables.
pub open spec fn env_lines(envs: Seq<EnvModel>) -> Seq<char>
    decreases envs.len(),
{
    if envs.len() == 0 {
        Seq::empty()
    } else {
        let e = envs.last();
        env_lines(envs.drop_last()) + "# env-dep:"@ + e.0 + (match e.1 {
            Some(value) => "="@ + value,
            None => Seq::empty(),
        }) + "\n"@
    }
}

/// The names of the files, with a space between.
pub open spec fn file_list(files: Seq<(Seq<char>, FileDep)>) -> Seq<char>
    decreases files.len(),
{
    if files.len() == 0 {
        Seq::empty()
    } else if files.len() == 1 {
        files[0].0
    } else {
        file_list(files.drop_last()) + " "@ + files.last().0
    }
}

/// The rules: each output depends on every file.
pub open spec fn rule_lines(outputs: Seq<Seq<char>>, files: Seq<char>) -> Seq<char>
    decreases outputs.len(),
{
    if outputs.len() == 0 {
        Seq::empty()
    } else {
        rule_lines(outputs.drop_last(), files) + outputs.last() + ": "@ + files + "\n\n"@
    }
}

/// A rule without dependencies for each file, so that a file can be deleted.
pub open spec fn phony_lines(files: Seq<(Seq<char>, FileDep)>) -> Seq<char>
    decreases files.len(),
{
    if files.len() == 0 {
        Seq::empty()
    } else {
        phony_lines(files.drop_last()) + files.last().0 + ":\n"@
    }
}

/// The comments about checksums, for the files that have one.
pub open spec fn checksum_lines(files: Seq<(Seq<char>, FileDep)>) -> Seq<char>
    decreases files.len(),
{
    if files.len() == 0 {
        Seq::empty()
    } else {
        let before = checksum_lines(files.drop_last());
        let f = files.last();
        match f.1.checksum {
            Some(checksum) => before + "# checksum:"@ + checksum@ + " file_len:"@ + decimal(
                f.1.len as nat,
            ) + " "@ + f.0 + "\n"@,
            None => before,
        }
    }
}

/// The text of the dependency rules, with the variables in `order`.
pub open spec fn deps_text(
    outputs: Seq<Seq<char>>,
    files: Seq<(Seq<char>, FileDep)>,
    order: Seq<EnvModel>,
    checksums: bool,
) -> Seq<char> {
    rule_lines(outputs, file_list(files)) + phony_lines(files) + (if order.len() > 0 {
        "\n"@ + env_lines(order)
    } else {
        Seq::empty()
    }) + (if checksums {
        checksum_lines(files)
    } else {
        Seq::empty()
    })
}

fn push_file_list(out: &mut String, table: &TextMap<FileDep>)
    requires
        table.wf(),
    ensures
        final(out)@ == old(out)@ + file_list(table@),
{
    let ghost before = out@;
    let ghost files = table@;
    let mut i: usize = 0;
    assert(files.take(0) =~= Seq::<(Seq<char>, FileDep)>::empty());
    assert(out@ =~= before + file_list(files.take(0)));
    while i < table.len()
        invariant
            table.wf(),
            files == table@,
            i <= files.len(),
            out@ == before + file_list(files.take(i as int)),
        decreases files.len() - i,
    {
        if i > 0 {
            out.append(" ");
        }
        out.append(table.at(i).0);
        proof {
            assert(files.take(i + 1).drop_last() =~= files.take(i as int));
            assert(files.take(i + 1).last() == files[i as int]);
            assert(out@ =~= before + file_list(files.take(i + 1)));
        }
        i += 1;
    }
    assert(files.take(i as int) =~= files);
}

fn push_phony_lines(out: &mut String, table: &TextMap<FileDep>)
    requires
        table.wf(),
    ensures
        final(out)@ == old(out)@ + phony_lines(table@),
{
    let ghost before = out@;
    let ghost files = table@;
    let mut i: usize = 0;
    assert(files.take(0) =~= Seq::<(Seq<char>, FileDep)>::empty());
    assert(out@ =~= before + phony_lines(files.take(0)));
    while i < table.len()
        invariant
            table.wf(),
            files == table@,
            i <= files.len(),
            out@ == before + phony_lines(files.take(i as int)),
        decreases files.len() - i,
    {
        out.append(table.at(i).0);
        out.append(":\n");
        proof {
            assert(files.take(i + 1).drop_last() =~= files.take(i as int));
            assert(files.take(i + 1).last() == files[i as int]);
            assert(out@ =~= before + phony_lines(files.take(i + 1)));
        }
        i += 1;
    }
    assert(files.take(i as int) =~= files);
}

fn push_checksum_lines(out: &mut String, table: &TextMap<FileDep>)
    requires
        table.wf(),
    ensures
        final(out)@ == old(out)@ + checksum_lines(table@),
{
    let ghost before = out@;
    let ghost files = table@;
    let mut i: usize = 0;
    assert(files.take(0) =~= Seq::<(Seq<char>, FileDep)>::empty());
    assert(out@ =~= before + checksum_lines(files.take(0)));
    while i < table.len()
        invariant
            table.wf(),
            files == table@,
            i <= files.len(),
            out@ == before + checksum_lines(files.take(i as int)),
        decreases files.len() - i,
    {
        let entry = table.at(i);
        match &entry.1.checksum {
            Some(checksum) => {
                out.append("# checksum:");
                out.append(checksum.as_str());
                out.append(" file_len:");
                out.append(decimal_text(entry.1.len as u128).as_str());
                out.append(" ");
                out.append(entry.0);
                out.append("\n");
            },
            None => {},
        }
        proof {
            assert(files.take(i + 1).drop_last() =~= files.take(i as int));
            assert(files.take(i + 1).last() == files[i as int]);
            assert(out@ =~= before + checksum_lines(files.take(i + 1)));
        }
        i += 1;
    }
    assert(files.take(i as int) =~= files);
}

fn push_rule_lines(out: &mut String, outputs: &Vec<String>, list: &str)
    ensures
        final(out)@ == old(out)@ + rule_lines(crate::text::texts(outputs@), list@),
{
    let ghost before = out@;
    let ghost names = crate::text::texts(outputs@);
    let mut i: usize = 0;
    assert(names.take(0) =~= Seq::<Seq<char>>::empty());
    assert(out@ =~= before + rule_lines(names.take(0), list@));
    while i < outputs.len()
        invariant
            names == crate::text::texts(outputs@),
            i <= names.len(),
            out@ == before + rule_lines(names.take(i as int), list@),
        decreases names.len() - i,
    {
        out.append(outputs[i].as_str());
        out.append(": ");
        out.append(list);
        out.append("\n\n");
        proof {
            assert(names.take(i + 1).drop_last() =~= names.take(i as int));
            assert(names.take(i + 1).last() == names[i as int]);
            assert(out@ =~= before + rule_lines(names.take(i + 1), list@));
        }
        i += 1;
    }
    assert(names.take(i as int) =~= names);
}

fn push_env_lines(out: &mut String, envs: &Vec<EnvDep>)
    ensures
        final(out)@ == old(out)@ + env_lines(env_models(envs@)),
{
    let ghost before = out@;
    let ghost models = env_models(envs@);
    let mut i: usize = 0;
    assert(models.take(0) =~= Seq::<EnvModel>::empty());
    assert(out@ =~= before + env_lines(models.take(0)));
    while i < envs.len()
        invariant
            models == env_models(envs@),
            i <= models.len(),
            out@ == before + env_lines(models.take(i as int)),
        decreases models.len() - i,
    {
        out.append("# env-dep:");
        out.append(envs[i].key.as_str());
        match &envs[i].value {
            Some(value) => {
                out.append("=");
                out.append(value.as_str());
            },
            None => {},
        }
        out.append("\n");
        proof {
            assert(models.take(i + 1).drop_last() =~= models.take(i as int));
            assert(models.take(i + 1).last() == models[i as int]);
            assert(out@ =~= before + env_lines(models.take(i + 1)));
        }
        i += 1;
    }
    assert(models.take(i as int) =~= models);
}

/// The variables with names and values escaped.
fn escape_envs(envs: &Vec<EnvDep>) -> (out: Vec<EnvDep>)
    ensures
        env_models(out@) == escaped_envs(envs@),
{
    let mut out: Vec<EnvDep> = Vec::new();
    let ghost want = escaped_envs(envs@);
    let mut i: usize = 0;
    while i < envs.len()
        invariant
            want == escaped_envs(envs@),
            i <= envs@.len(),
            out@.len() == i,
            forall|k: int| 0 <= k < i ==> (#[trigger] out@[k])@ == want[k],
        decreases envs@.len() - i,
    {
        let key = escape_dep_env(envs[i].key.as_str());
        let value = match &envs[i].value {
            Some(value) => Some(escape_dep_env(value.as_str())),
            None => None,
        };
        out.push(EnvDep { key, value });
        i += 1;
    }
    assert(env_models(out@) =~= want);
    out
}

/// The text of the dependency rules: what each output depends on, a rule without dependencies for
/// each file, the variables that were read, sorted, and the checksums if they are asked for.
pub fn write_deps(
    outputs: &Vec<String>,
    files: &TextMap<FileDep>,
    envs: &Vec<EnvDep>,
    checksums: bool,
) -> (text: String)
    requires
        files.wf(),
    ensures
        exists|order: Seq<EnvModel>|
            {
                &&& envs_sorted(order)
                &&& order.to_multiset() == escaped_envs(envs@).to_multiset()
                &&& text@ == #[trigger] deps_text(
                    crate::text::texts(outputs@),
                    files@,
                    order,
                    checksums,
                )
            },
{
    let mut list = String::new();
    push_file_list(&mut list, files);
    assert(list@ =~= file_list(files@));
    let mut text = String::new();
    push_rule_lines(&mut text, outputs, list.as_str());
    push_phony_lines(&mut text, files);
    let escaped = escape_envs(envs);
    let ghost raw = escaped@;
    let order = sort(escaped);
    let ghost models = env_models(order@);
    proof {
        lemma_arrangements_map(order@, raw, |e: EnvDep| e@);
        assert forall|i: int, j: int| 0 <= i <= j < models.len() implies env_leq(
            #[trigger] models[i],
            #[trigger] models[j],
        ) by {
            assert(EnvDep::leq(order@[i], order@[j]));
        }
    }
    if order.len() > 0 {
        text.append("\n");
        push_env_lines(&mut text, &order);
    }
    if checksums {
        push_checksum_lines(&mut text, files);
    }
    assert(text@ =~= deps_text(crate::text::texts(outputs@), files@, models, checksums));
    text
}

/// Variables have one sorted order, so the text of the rules is determined.
pub proof fn law_variables_have_one_order(a: Seq<EnvModel>, b: Seq<EnvModel>)
    requires
        envs_sorted(a),
        envs_sorted(b),
        a.to_multiset() == b.to_multiset(),
    ensures
        a == b,
{
    let leq = |x: EnvModel, y: EnvModel| env_leq(x, y);
    assert forall|x: EnvModel| #[trigger] leq(x, x) by {
        lemma_env_leq(x, x, x);
    }
    assert forall|x: EnvModel, y: EnvModel| #[trigger] leq(x, y) && #[trigger] leq(
        y,
        x,
    ) implies x == y by {
        lemma_env_leq(x, y, x);
    }
    assert forall|x: EnvModel, y: EnvModel| #[trigger] leq(x, y) || #[trigger] leq(y, x) by {
        lemma_env_leq(x, y, x);
    }
    assert forall|x: EnvModel, y: EnvModel, z: EnvModel| #[trigger]
        leq(x, y) && #[trigger] leq(y, z) implies leq(x, z) by {
        lemma_env_leq(x, y, z);
    }
    assert(vstd::relations::sorted_by(a, leq)) by {
        assert forall|i: int, j: int| 0 <= i < j < a.len() implies #[trigger] leq(a[i], a[j]) by {
            assert(env_leq(a[i], a[j]));
        }
    }
    assert(vstd::relations::sorted_by(b, leq)) by {
        assert forall|i: int, j: int| 0 <= i < j < b.len() implies #[trigger] leq(b[i], b[j]) by {
            assert(env_leq(b[i], b[j]));
        }
    }
    vstd::seq_lib::lemma_sorted_unique(a, b, leq);
}

/// The order of variables is total, and variables that rank the same are the same.
proof fn lemma_env_leq(x: EnvModel, y: EnvModel, z: EnvModel)
    ensures
        env_leq(x, y) || env_leq(y, x),
        env_leq(x, y) && env_leq(y, x) ==> x == y,
        env_leq(x, y) && env_leq(y, z) ==> env_leq(x, z),
{
    lemma_text_leq_total(x.0, y.0);
    if x.0 == y.0 {
        match (x.1, y.1) {
            (Some(v), Some(w)) => {
                lemma_text_leq_total(v, w);
            },
            _ => {},
        }
    }
    if env_leq(x, y) && env_leq(y, z) {
        if x.0 == y.0 && y.0 == z.0 {
            match (x.1, y.1, z.1) {
                (Some(u), Some(v), Some(w)) => {
                    lemma_text_leq_transitive(u, v, w);
                },
                _ => {},
            }
        } else if x.0 != y.0 && y.0 != z.0 {
            lemma_text_leq_transitive(x.0, y.0, z.0);
            if x.0 == z.0 {
                lemma_text_leq_total(x.0, y.0);
            }
        }
    }
}

/// A file name is escaped letter by letter: a space gets a backslash before it, and nothing else is
/// changed.
pub proof fn law_only_spaces_of_a_file_name_are_escaped(name: Seq<char>, c: char)
    ensures
        escaped_filename(Seq::empty()) == Seq::<char>::empty(),
        c == ' ' ==> escaped_filename(name.push(c)) == escaped_filename(name).push('\\').push(' '),
        c != ' ' ==> escaped_filename(name.push(c)) == escaped_filename(name).push(c),
{
    reveal_strlit("\\ ");
    assert(name.push(c).drop_last() =~= name);
}

/// A variable is escaped letter by letter.
pub proof fn law_only_line_ends_and_backslashes_are_escaped(s: Seq<char>, c: char)
    ensures
        escaped_env(Seq::empty()) == Seq::<char>::empty(),
        c == '\n' ==> escaped_env(s.push(c)) == escaped_env(s).push('\\').push('n'),
        c == '\r' ==> escaped_env(s.push(c)) == escaped_env(s).push('\\').push('r'),
        c == '\\' ==> escaped_env(s.push(c)) == escaped_env(s).push('\\').push('\\'),
        c != '\n' && c != '\r' && c != '\\' ==> escaped_env(s.push(c)) == escaped_env(s).push(c),
{
    assert(s.push(c).drop_last() =~= s);
}

proof fn lemma_crate_files(crates: Seq<CrateSource>, at: int)
    requires
        0 <= at < crates.len(),
    ensures
        crates[at].dylib is Some ==> crate_files(crates).contains(
            escaped_filename(crates[at].dylib->0@),
        ),
        crates[at].rlib is Some ==> crate_files(crates).contains(
            escaped_filename(crates[at].rlib->0@),
        ),
        crates[at].rmeta is Some ==> crate_files(crates).contains(
            escaped_filename(crates[at].rmeta->0@),
        ),
    decreases crates.len(),
{
    let c = crates.last();
    let before = crate_files(crates.drop_last());
    let all = crate_files(crates);
    assert forall|name: Seq<char>| before.contains(name) implies all.contains(name) by {
        let k = choose|k: int| 0 <= k < before.len() && before[k] == name;
        assert(all[k] == name);
    }
    if at < crates.len() - 1 {
        lemma_crate_files(crates.drop_last(), at);
    } else {
        let d = escaped_option(c.dylib);
        let l = escaped_option(c.rlib);
        if c.dylib is Some {
            assert(all[before.len() as int] == d[0]);
        }
        if c.rlib is Some {
            assert(all[(before + d).len() as int] == l[0]);
        }
        if c.rmeta is Some {
            assert(all[(before + d + l).len() as int] == escaped_filename(c.rmeta->0@));
        }
    }
}

proof fn lemma_no_other_crate_files(crates: Seq<CrateSource>, name: Seq<char>)
    requires
        crate_files(crates).contains(name),
    ensures
        exists|i: int|
            0 <= i < crates.len() && {
                ||| (#[trigger] crates[i]).dylib is Some && escaped_filename(crates[i].dylib->0@)
                    == name
                ||| crates[i].rlib is Some && escaped_filename(crates[i].rlib->0@) == name
                ||| crates[i].rmeta is Some && escaped_filename(crates[i].rmeta->0@) == name
            },
    decreases crates.len(),
{
    if crates.len() > 0 {
        let c = crates.last();
        let before = crate_files(crates.drop_last());
        let d = escaped_option(c.dylib);
        let l = escaped_option(c.rlib);
        let all = crate_files(crates);
        let k = choose|k: int| 0 <= k < all.len() && all[k] == name;
        if k < before.len() {
            assert(before[k] == name);
            lemma_no_other_crate_files(crates.drop_last(), name);
            let i = choose|i: int|
                0 <= i < crates.drop_last().len() && {
                    ||| (#[trigger] crates.drop_last()[i]).dylib is Some && escaped_filename(
                        crates.drop_last()[i].dylib->0@,
                    ) == name
                    ||| crates.drop_last()[i].rlib is Some && escaped_filename(
                        crates.drop_last()[i].rlib->0@,
                    ) == name
                    ||| crates.drop_last()[i].rmeta is Some && escaped_filename(
                        crates.drop_last()[i].rmeta->0@,
                    ) == name
                };
            assert(crates[i] == crates.drop_last()[i]);
        } else {
            assert(crates[crates.len() - 1] == c);
        }
    }
}

/// The file of a crate that was used is in `names`, as it is written, if it has one.
pub open spec fn names_file(names: Seq<Seq<char>>, file: Option<String>) -> bool {
    file is Some ==> names.contains(escaped_filename(file->0@))
}

/// Every file of a crate that was used is tracked, and no file of any other.
pub proof fn law_the_files_of_crates_are_tracked(crates: Seq<CrateSource>, at: int)
    requires
        0 <= at < crates.len(),
    ensures
        names_file(crate_files(crates), crates[at].dylib),
        names_file(crate_files(crates), crates[at].rlib),
        names_file(crate_files(crates), crates[at].rmeta),
        forall|name: Seq<char>| #[trigger]
            crate_files(crates).contains(name) ==> exists|i: int|
                0 <= i < crates.len() && {
                    ||| (#[trigger] crates[i]).dylib is Some && escaped_filename(
                        crates[i].dylib->0@,
                    ) == name
                    ||| crates[i].rlib is Some && escaped_filename(crates[i].rlib->0@) == name
                    ||| crates[i].rmeta is Some && escaped_filename(crates[i].rmeta->0@) == name
                },
{
    lemma_crate_files(crates, at);
    assert forall|name: Seq<char>| #[trigger]
        crate_files(crates).contains(name) implies exists|i: int|
        0 <= i < crates.len() && {
            ||| (#[trigger] crates[i]).dylib is Some && escaped_filename(crates[i].dylib->0@)
                == name
            ||| crates[i].rlib is Some && escaped_filename(crates[i].rlib->0@) == name
            ||| crates[i].rmeta is Some && escaped_filename(crates[i].rmeta->0@) == name
        } by {
        lemma_no_other_crate_files(crates, name);
    }
}

/// The files besides the sources come in one order: those that were marked, the profiles, the
/// visualizers, and only if binaries are tracked the backend, as long as it is a path, and the files
/// of crates. Nothing else is tracked.
pub proof fn law_files_are_tracked_in_order(inputs: &DepInputs, out: Vec<String>)
    requires
        call_ensures(extra_tracked_files, (inputs,), out),
    ensures
        ({
            let marked = inputs.file_depinfo@.len();
            let first = marked + (if inputs.profile_use is Some {
                1nat
            } else {
                0
            });
            let second = first + (if inputs.profile_sample_use is Some {
                1nat
            } else {
                0
            });
            let own = second + inputs.debugger_visualizers@.len();
            let backend = inputs.binary_dep_depinfo && inputs.codegen_backend is Some
                && inputs.codegen_backend->0@.contains('.');
            let binaries = own + (if backend {
                1nat
            } else {
                0
            });
            &&& out@.len() == binaries + (if inputs.binary_dep_depinfo {
                crate_files(inputs.crates@).len()
            } else {
                0
            })
            &&& forall|i: int|
                0 <= i < marked ==> (#[trigger] out@[i])@ == escaped_filename(
                    inputs.file_depinfo@[i]@,
                )
            &&& inputs.profile_use is Some ==> out@[marked as int]@ == escaped_filename(
                inputs.profile_use->0@,
            )
            &&& inputs.profile_sample_use is Some ==> out@[first as int]@ == escaped_filename(
                inputs.profile_sample_use->0@,
            )
            &&& forall|i: int|
                0 <= i < inputs.debugger_visualizers@.len() ==> (#[trigger] out@[second + i])@
                    == escaped_filename(inputs.debugger_visualizers@[i]@)
            &&& backend ==> out@[own as int]@ == inputs.codegen_backend->0@
            &&& inputs.binary_dep_depinfo ==> forall|i: int|
                0 <= i < crate_files(inputs.crates@).len() ==> (#[trigger] out@[binaries + i])@
                    == crate_files(inputs.crates@)[i]
        }),
{
    let names = crate::text::texts(out@);
    assert(forall|i: int| 0 <= i < out@.len() ==> names[i] == (#[trigger] out@[i])@);
    let a = escaped_names(inputs.file_depinfo@);
    let b = escaped_option(inputs.profile_use);
    let c = escaped_option(inputs.profile_sample_use);
    let d = escaped_names(inputs.debugger_visualizers@);
    let own = a + b + c + d;
    let e = backend_file(inputs.codegen_backend);
    let f = crate_files(inputs.crates@);
    assert(names == if inputs.binary_dep_depinfo {
        own + e + f
    } else {
        own
    });
    assert forall|i: int| 0 <= i < a.len() implies names[i] == a[i] by {}
    if b.len() > 0 {
        assert(names[a.len() as int] == b[0]);
    }
    if c.len() > 0 {
        assert(names[(a + b).len() as int] == c[0]);
    }
    assert forall|i: int| 0 <= i < d.len() implies #[trigger] names[(a + b + c).len() + i]
        == d[i] by {}
    if inputs.binary_dep_depinfo {
        if e.len() > 0 {
            assert(names[own.len() as int] == e[0]);
        }
        assert forall|i: int| 0 <= i < f.len() implies #[trigger] names[(own + e).len() + i]
            == f[i] by {}
    }
}

/// A source file that is a file of this crate is in the table, under its escaped name and with what
/// is known of it; one that is generated or belongs to another crate changes nothing.
pub proof fn law_only_own_sources_count(sources: Seq<SourceDep>, s: SourceDep)
    ensures
        source_table(Seq::empty()) == Seq::<(Seq<char>, FileDep)>::empty(),
        !s.real || s.imported ==> source_table(sources.push(s)) == source_table(sources),
        s.real && !s.imported ==> source_table(sources.push(s)) == with_id(
            source_table(sources),
            escaped_filename(s.name@),
            s.file,
        ),
{
    assert(sources.push(s).drop_last() =~= sources);
}

/// Every other file is in the table under the name that it is written by.
pub proof fn law_other_files_are_added(
    table: Seq<(Seq<char>, FileDep)>,
    files: Seq<(String, FileDep)>,
    file: (String, FileDep),
)
    ensures
        with_files(table, Seq::empty()) == table,
        with_files(table, files.push(file)) == with_id(
            with_files(table, files),
            file.0@,
            file.1,
        ),
{
    assert(files.push(file).drop_last() =~= files);
}

/// Each output more has a rule of its own behind the others: the output, a colon and the files. Each
/// file more is in every such list, behind a space, and gets a rule without dependencies.
pub proof fn law_every_output_depends_on_every_file(
    outputs: Seq<Seq<char>>,
    output: Seq<char>,
    files: Seq<(Seq<char>, FileDep)>,
    file: (Seq<char>, FileDep),
    list: Seq<char>,
)
    ensures
        rule_lines(Seq::empty(), list) == Seq::<char>::empty(),
        rule_lines(outputs.push(output), list) == rule_lines(outputs, list) + output + seq![
            ':',
            ' ',
        ] + list + seq!['\n', '\n'],
        file_list(seq![file]) == file.0,
        files.len() > 0 ==> file_list(files.push(file)) == file_list(files).push(' ') + file.0,
        phony_lines(Seq::empty()) == Seq::<char>::empty(),
        phony_lines(files.push(file)) == phony_lines(files) + file.0 + seq![':', '\n'],
{
    reveal_strlit(": ");
    reveal_strlit("\n\n");
    reveal_strlit(" ");
    reveal_strlit(":\n");
    assert(": "@ =~= seq![':', ' ']);
    assert("\n\n"@ =~= seq!['\n', '\n']);
    assert(":\n"@ =~= seq![':', '\n']);
    assert(outputs.push(output).drop_last() =~= outputs);
    assert(files.push(file).drop_last() =~= files);
    assert(file_list(files) + " "@ =~= file_list(files).push(' '));
}

/// Each variable more has a line of its own: its name, and behind an equals sign its value if it was
/// set. Each file with a checksum has one: the checksum, the length and the name.
pub proof fn law_variables_and_checksums_have_lines(
    envs: Seq<EnvModel>,
    env: EnvModel,
    files: Seq<(Seq<char>, FileDep)>,
    file: (Seq<char>, FileDep),
)
    ensures
        env_lines(Seq::empty()) == Seq::<char>::empty(),
        env.1 is None ==> env_lines(envs.push(env)) == (env_lines(envs) + "# env-dep:"@
            + env.0).push('\n'),
        env.1 is Some ==> env_lines(envs.push(env)) == ((env_lines(envs) + "# env-dep:"@
            + env.0).push('=') + env.1->0).push('\n'),
        checksum_lines(Seq::empty()) == Seq::<char>::empty(),
        file.1.checksum is None ==> checksum_lines(files.push(file)) == checksum_lines(files),
        file.1.checksum is Some ==> checksum_lines(files.push(file)) == ((checksum_lines(files)
            + "# checksum:"@ + file.1.checksum->0@ + " file_len:"@ + decimal(
            file.1.len as nat,
        )).push(' ') + file.0).push('\n'),
{
    reveal_strlit("\n");
    reveal_strlit("=");
    reveal_strlit(" ");
    assert(envs.push(env).drop_last() =~= envs);
    assert(files.push(file).drop_last() =~= files);
    assert("\n"@ =~= seq!['\n']);
    assert("="@ =~= seq!['=']);
    assert(" "@ =~= seq![' ']);
}

/// The rules come first, the rules without dependencies next, the variables behind an empty line if
/// there are any, and last the checksums, only if they are asked for.
pub proof fn law_the_parts_of_the_rules(
    outputs: &Vec<String>,
    files: &TextMap<FileDep>,
    envs: &Vec<EnvDep>,
    checksums: bool,
    text: String,
)
    requires
        call_ensures(write_deps, (outputs, files, envs, checksums), text),
    ensures
        ({
            let rules = rule_lines(crate::text::texts(outputs@), file_list(files@)) + phony_lines(
                files@,
            );
            let sums = if checksums {
                checksum_lines(files@)
            } else {
                Seq::empty()
            };
            &&& envs@.len() == 0 ==> text@ == rules + sums
            &&& envs@.len() > 0 ==> exists|order: Seq<EnvModel>|
                {
                    &&& envs_sorted(order)
                    &&& order.to_multiset() == escaped_envs(envs@).to_multiset()
                    &&& text@ == rules.push('\n') + #[trigger] env_lines(order) + sums
                }
        }),
{
    reveal_strlit("\n");
    let order = choose|order: Seq<EnvModel>|
        {
            &&& envs_sorted(order)
            &&& order.to_multiset() == escaped_envs(envs@).to_multiset()
            &&& text@ == #[trigger] deps_text(
                crate::text::texts(outputs@),
                files@,
                order,
                checksums,
            )
        };
    order.to_multiset_ensures();
    escaped_envs(envs@).to_multiset_ensures();
    assert(order.len() == envs@.len());
    let rules = rule_lines(crate::text::texts(outputs@), file_list(files@)) + phony_lines(files@);
    let sums = if checksums {
        checksum_lines(files@)
    } else {
        Seq::empty()
    };
    if order.len() > 0 {
        assert(text@ =~= rules.push('\n') + env_lines(order) + sums);
    } else {
        assert(text@ =~= rules + sums);
    }
}

/// A variable with a lesser name comes first, and of one name the one that was not set.
pub proof fn law_variables_come_by_name(a: EnvModel, b: EnvModel)
    ensures
        a.0 != b.0 ==> (env_leq(a, b) <==> text_leq(a.0, b.0)),
        a.0 == b.0 && a.1 is None ==> env_leq(a, b),
        a.0 == b.0 && a.1 is Some && b.1 is None ==> !env_leq(a, b),
        a.0 == b.0 && a.1 is Some && b.1 is Some ==> (env_leq(a, b) <==> text_leq(
            a.1->0,
            b.1->0,
        )),
{
}

} // verus!
