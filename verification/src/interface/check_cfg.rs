//! What `--check-cfg` expects to be set.

use vstd::prelude::*;
use vstd::string::StringExecFns;

use crate::fx::fx_hash_set;
use crate::fx::hash_set_contains;
use crate::fx::hash_set_extend;
use crate::fx::hash_set_insert;
use crate::fx::hash_set_is_empty;
use crate::fx::members;
use crate::fx::FxHashSet;
use crate::id_map::distinct_ids;
use crate::id_map::has_id;
use crate::id_map::id_at;
use crate::id_map::id_place;
use crate::id_map::law_an_entry_is_found;
use crate::id_map::with_id;
use crate::id_map::IdMap;
use crate::interface::cfg::number_of_value;
use crate::interface::cfg::value_id;

verus! {

/// An argument as it is shown in a message.
pub struct ArgNote {
    /// The argument, printed.
    pub text: String,
    /// The article and the description of the literal that it is, if it is one.
    pub literal: Option<(String, String)>,
}

/// An argument of `values(..)`.
pub enum ValueArg {
    /// A string literal.
    Str(u32),
    /// `any(..)`, and whether the parentheses are empty.
    Any(bool, ArgNote),
    /// `none(..)`, and whether the parentheses are empty.
    Absent(bool, ArgNote),
    Other(ArgNote),
}

/// An argument of `cfg(..)`.
pub enum CfgArg {
    /// A name, and whether it is a word that can start a path and be nothing else.
    Name(u32, bool),
    /// `true` or `false`.
    Bool(bool),
    /// `any(..)`, and whether the parentheses are empty.
    Any(bool, ArgNote),
    /// `values(..)`.
    Values(Vec<ValueArg>),
    Other(ArgNote),
}

/// Why a `--check-cfg` argument is refused. Where an argument of `cfg(..)` or of `values(..)` is at
/// fault, its place says which.
#[derive(Clone, Copy, PartialEq, Eq, Structural, Debug)]
pub enum CheckFault {
    /// It is not `cfg(..)`.
    Shape,
    NameAfterValues,
    NameIsKeyword,
    AnyTwice,
    AnyHasArgument(usize),
    ValuesBeforeNames,
    ValuesTwice,
    ValuesAnyTwice(usize, usize),
    ValuesAnyHasArgument(usize, usize),
    ValuesNoneHasArgument(usize, usize),
    BadValue(usize, usize),
    BadArgument(usize),
    ValuesAndAny,
    AnyNotAlone,
}

/// What the arguments of `cfg(..)` say so far.
pub struct Spec {
    pub names: Seq<u32>,
    pub values: Set<u128>,
    pub any: bool,
    pub values_given: bool,
    pub values_any: bool,
}

/// What the arguments of `values(..)` say so far: the values, and whether any will do.
pub open spec fn after_values(
    args: Seq<ValueArg>,
    at: usize,
    values: Set<u128>,
    any: bool,
) -> Result<(Set<u128>, bool), CheckFault>
    decreases args.len(),
{
    if args.len() == 0 {
        Ok((values, any))
    } else {
        match after_values(args.drop_last(), at, values, any) {
            Err(fault) => Err(fault),
            Ok(before) => {
                let j = (args.len() - 1) as usize;
                match args.last() {
                    ValueArg::Str(s) => Ok((before.0.insert(value_id(Some(s))), before.1)),
                    ValueArg::Any(empty, _) => if before.1 {
                        Err(CheckFault::ValuesAnyTwice(at, j))
                    } else if !empty {
                        Err(CheckFault::ValuesAnyHasArgument(at, j))
                    } else {
                        Ok((before.0, true))
                    },
                    ValueArg::Absent(empty, _) => if !empty {
                        Err(CheckFault::ValuesNoneHasArgument(at, j))
                    } else {
                        Ok((before.0.insert(value_id(None)), before.1))
                    },
                    ValueArg::Other(_) => Err(CheckFault::BadValue(at, j)),
                }
            },
        }
    }
}

/// What the arguments of `cfg(..)` say, or the first fault. `yes` and `no` are the symbols of the
/// two boolean literals, which are names here.
pub open spec fn after_args(args: Seq<CfgArg>, yes: u32, no: u32) -> Result<Spec, CheckFault>
    decreases args.len(),
{
    if args.len() == 0 {
        Ok(
            Spec {
                names: Seq::empty(),
                values: Set::empty(),
                any: false,
                values_given: false,
                values_any: false,
            },
        )
    } else {
        match after_args(args.drop_last(), yes, no) {
            Err(fault) => Err(fault),
            Ok(before) => {
                let i = (args.len() - 1) as usize;
                match args.last() {
                    CfgArg::Name(name, keyword) => if before.values_given {
                        Err(CheckFault::NameAfterValues)
                    } else if keyword {
                        Err(CheckFault::NameIsKeyword)
                    } else {
                        Ok(Spec { names: before.names.push(name), ..before })
                    },
                    CfgArg::Bool(value) => if before.values_given {
                        Err(CheckFault::NameAfterValues)
                    } else {
                        Ok(
                            Spec {
                                names: before.names.push(
                                    if value {
                                        yes
                                    } else {
                                        no
                                    },
                                ),
                                ..before
                            },
                        )
                    },
                    CfgArg::Any(empty, _) => if before.any {
                        Err(CheckFault::AnyTwice)
                    } else if !empty {
                        Err(CheckFault::AnyHasArgument(i))
                    } else {
                        Ok(Spec { any: true, ..before })
                    },
                    CfgArg::Values(list) => if before.names.len() == 0 {
                        Err(CheckFault::ValuesBeforeNames)
                    } else if before.values_given {
                        Err(CheckFault::ValuesTwice)
                    } else {
                        match after_values(list@, i, before.values, before.values_any) {
                            Err(fault) => Err(fault),
                            Ok(given) => Ok(
                                Spec {
                                    values: given.0,
                                    values_given: true,
                                    values_any: given.1,
                                    ..before
                                },
                            ),
                        }
                    },
                    CfgArg::Other(_) => Err(CheckFault::BadArgument(i)),
                }
            },
        }
    }
}

/// What a whole argument says. `cfg(name)` stands for `cfg(name, values(none()))`.
pub open spec fn whole_spec(args: Option<Seq<CfgArg>>, yes: u32, no: u32) -> Result<
    Spec,
    CheckFault,
> {
    match args {
        None => Err(CheckFault::Shape),
        Some(args) => match after_args(args, yes, no) {
            Err(fault) => Err(fault),
            Ok(spec) => {
                let filled = if !spec.values_given && !spec.any {
                    Spec { values: spec.values.insert(value_id(None)), ..spec }
                } else {
                    spec
                };
                if (spec.values_given || spec.any) && spec.values != Set::<u128>::empty()
                    && spec.values_any {
                    Err(CheckFault::ValuesAndAny)
                } else if filled.any && !(filled.names.len() == 0 && filled.values
                    == Set::<u128>::empty() && !filled.values_given && !filled.values_any) {
                    Err(CheckFault::AnyNotAlone)
                } else {
                    Ok(filled)
                }
            },
        },
    }
}

/// The values that a name is expected to have.
pub enum ExpectedValues {
    These(FxHashSet),
    Any,
}

/// `None` stands for any value.
pub type ExpectedModel = Option<Set<u128>>;

impl View for ExpectedValues {
    type V = ExpectedModel;

    open spec fn view(&self) -> ExpectedModel {
        match self {
            ExpectedValues::These(set) => Some(members(*set)),
            ExpectedValues::Any => None,
        }
    }
}

/// What is expected of names.
pub struct CheckCfg {
    pub exhaustive_names: bool,
    pub exhaustive_values: bool,
    expecteds: IdMap<ExpectedValues>,
}

impl ExpectedValues {
    /// Whether a value is among those that are expected; no value is one too.
    pub fn allows(&self, value: Option<u32>) -> (yes: bool)
        ensures
            yes == (match self@ {
                Some(values) => values.contains(value_id(value)),
                None => true,
            }),
    {
        match self {
            ExpectedValues::These(set) => hash_set_contains(set, number_of_value(value)),
            ExpectedValues::Any => true,
        }
    }
}

/// What is expected of names, name by name.
pub open spec fn expected_models(m: Seq<(u128, ExpectedValues)>) -> Seq<(u128, ExpectedModel)> {
    Seq::new(m.len(), |i: int| (m[i].0, m[i].1@))
}

/// What is expected once `name` may have `values`, or any value.
pub open spec fn with_expected(
    m: Seq<(u128, ExpectedModel)>,
    name: u32,
    values: Set<u128>,
    any: bool,
) -> Seq<(u128, ExpectedModel)> {
    let key = name as u128;
    let now = if has_id(m, key) {
        match m[id_place(m, key)].1 {
            Some(known) => if any {
                None
            } else {
                Some(known.union(values))
            },
            None => None,
        }
    } else if any {
        None
    } else {
        Some(values)
    };
    with_id(m, key, now)
}

/// What is expected once each of `names` may have `values`, or any value.
pub open spec fn with_all_expected(
    m: Seq<(u128, ExpectedModel)>,
    names: Seq<u32>,
    values: Set<u128>,
    any: bool,
) -> Seq<(u128, ExpectedModel)>
    decreases names.len(),
{
    if names.len() == 0 {
        m
    } else {
        with_expected(
            with_all_expected(m, names.drop_last(), values, any),
            names.last(),
            values,
            any,
        )
    }
}

/// The arguments of a `cfg(..)`, if it is one.
pub struct CheckItem {
    pub args: Option<Vec<CfgArg>>,
}

impl CheckItem {
    pub open spec fn arg_seq(&self) -> Option<Seq<CfgArg>> {
        match self.args {
            Some(args) => Some(args@),
            None => None,
        }
    }
}

/// What is known of a `--check-cfg` so far.
pub struct CheckModel {
    pub exhaustive_names: bool,
    pub exhaustive_values: bool,
    pub expecteds: Seq<(u128, ExpectedModel)>,
}

/// What the arguments say one by one, or the place of the first that is refused.
pub open spec fn after_checks(items: Seq<CheckItem>, given: bool, yes: u32, no: u32) -> Result<
    CheckModel,
    (int, CheckFault),
>
    decreases items.len(),
{
    if items.len() == 0 {
        Ok(
            CheckModel {
                exhaustive_names: given,
                exhaustive_values: given,
                expecteds: Seq::empty(),
            },
        )
    } else {
        match after_checks(items.drop_last(), given, yes, no) {
            Err(fault) => Err(fault),
            Ok(before) => match whole_spec(items.last().arg_seq(), yes, no) {
                Err(fault) => Err((items.len() - 1, fault)),
                Ok(spec) => if spec.any {
                    Ok(CheckModel { exhaustive_names: false, ..before })
                } else {
                    Ok(
                        CheckModel {
                            expecteds: with_all_expected(
                                before.expecteds,
                                spec.names,
                                spec.values,
                                spec.values_any,
                            ),
                            ..before
                        },
                    )
                },
            },
        }
    }
}

/// What is gathered from the arguments of one `cfg(..)`.
struct Gathered {
    names: Vec<u32>,
    values: FxHashSet,
    any: bool,
    values_given: bool,
    values_any: bool,
}

impl Gathered {
    spec fn model(&self) -> Spec {
        Spec {
            names: self.names@,
            values: members(self.values),
            any: self.any,
            values_given: self.values_given,
            values_any: self.values_any,
        }
    }
}

proof fn lemma_values_refused(
    args: Seq<ValueArg>,
    at: usize,
    values: Set<u128>,
    any: bool,
    n: int,
    k: int,
)
    requires
        0 <= n <= k <= args.len(),
        after_values(args.take(n), at, values, any) is Err,
    ensures
        after_values(args.take(k), at, values, any) == after_values(
            args.take(n),
            at,
            values,
            any,
        ),
    decreases k - n,
{
    if n < k {
        lemma_values_refused(args, at, values, any, n, k - 1);
        assert(args.take(k).drop_last() =~= args.take(k - 1));
    }
}

proof fn lemma_args_refused(args: Seq<CfgArg>, yes: u32, no: u32, n: int, k: int)
    requires
        0 <= n <= k <= args.len(),
        after_args(args.take(n), yes, no) is Err,
    ensures
        after_args(args.take(k), yes, no) == after_args(args.take(n), yes, no),
    decreases k - n,
{
    if n < k {
        lemma_args_refused(args, yes, no, n, k - 1);
        assert(args.take(k).drop_last() =~= args.take(k - 1));
    }
}

proof fn lemma_checks_refused(items: Seq<CheckItem>, given: bool, yes: u32, no: u32, n: int, k: int)
    requires
        0 <= n <= k <= items.len(),
        after_checks(items.take(n), given, yes, no) is Err,
    ensures
        after_checks(items.take(k), given, yes, no) == after_checks(
            items.take(n),
            given,
            yes,
            no,
        ),
    decreases k - n,
{
    if n < k {
        lemma_checks_refused(items, given, yes, no, n, k - 1);
        assert(items.take(k).drop_last() =~= items.take(k - 1));
    }
}

/// Takes in the arguments of `values(..)`.
fn take_values(args: &Vec<ValueArg>, at: usize, values: &mut FxHashSet, any: &mut bool) -> (fault:
    Option<CheckFault>)
    ensures
        match after_values(args@, at, members(*old(values)), *old(any)) {
            Ok(given) => fault is None && members(*final(values)) == given.0 && *final(any)
                == given.1,
            Err(f) => fault == Some(f),
        },
{
    let ghost values0 = members(*values);
    let ghost any0 = *any;
    let mut j: usize = 0;
    assert(args@.take(0) =~= Seq::<ValueArg>::empty());
    while j < args.len()
        invariant
            j <= args@.len(),
            values0 == members(*old(values)),
            any0 == *old(any),
            after_values(args@.take(j as int), at, values0, any0) == Ok::<
                (Set<u128>, bool),
                CheckFault,
            >((members(*values), *any)),
        decreases args@.len() - j,
    {
        proof {
            assert(args@.take(j + 1).drop_last() =~= args@.take(j as int));
            assert(args@.take(j + 1).last() == args@[j as int]);
            assert((args@.take(j + 1).len() - 1) as usize == j);
        }
        let fault = match &args[j] {
            ValueArg::Str(s) => {
                let _ = hash_set_insert(values, *s as u128 + 1);
                None
            },
            ValueArg::Any(empty, _) => if *any {
                Some(CheckFault::ValuesAnyTwice(at, j))
            } else if !*empty {
                Some(CheckFault::ValuesAnyHasArgument(at, j))
            } else {
                *any = true;
                None
            },
            ValueArg::Absent(empty, _) => if !*empty {
                Some(CheckFault::ValuesNoneHasArgument(at, j))
            } else {
                let _ = hash_set_insert(values, 0);
                None
            },
            ValueArg::Other(_) => Some(CheckFault::BadValue(at, j)),
        };
        if fault.is_some() {
            proof {
                lemma_values_refused(args@, at, values0, any0, j + 1, args@.len() as int);
                assert(args@.take(args@.len() as int) =~= args@);
            }
            return fault;
        }
        j += 1;
    }
    assert(args@.take(j as int) =~= args@);
    None
}

/// What the arguments of one `cfg(..)` say.
fn gather(args: &Vec<CfgArg>, yes: u32, no: u32) -> (out: Result<Gathered, CheckFault>)
    ensures
        match after_args(args@, yes, no) {
            Ok(spec) => out is Ok && out->Ok_0.model() == spec,
            Err(fault) => out is Err && out->Err_0 == fault,
        },
{
    let mut g = Gathered {
        names: Vec::new(),
        values: fx_hash_set(),
        any: false,
        values_given: false,
        values_any: false,
    };
    let mut i: usize = 0;
    assert(args@.take(0) =~= Seq::<CfgArg>::empty());
    while i < args.len()
        invariant
            i <= args@.len(),
            after_args(args@.take(i as int), yes, no) == Ok::<Spec, CheckFault>(g.model()),
        decreases args@.len() - i,
    {
        proof {
            assert(args@.take(i + 1).drop_last() =~= args@.take(i as int));
            assert(args@.take(i + 1).last() == args@[i as int]);
            assert((args@.take(i + 1).len() - 1) as usize == i);
        }
        let fault = match &args[i] {
            CfgArg::Name(name, keyword) => if g.values_given {
                Some(CheckFault::NameAfterValues)
            } else if *keyword {
                Some(CheckFault::NameIsKeyword)
            } else {
                g.names.push(*name);
                None
            },
            CfgArg::Bool(value) => if g.values_given {
                Some(CheckFault::NameAfterValues)
            } else {
                g.names.push(
                    if *value {
                        yes
                    } else {
                        no
                    },
                );
                None
            },
            CfgArg::Any(empty, _) => if g.any {
                Some(CheckFault::AnyTwice)
            } else if !*empty {
                Some(CheckFault::AnyHasArgument(i))
            } else {
                g.any = true;
                None
            },
            CfgArg::Values(list) => if g.names.len() == 0 {
                Some(CheckFault::ValuesBeforeNames)
            } else if g.values_given {
                Some(CheckFault::ValuesTwice)
            } else {
                g.values_given = true;
                take_values(list, i, &mut g.values, &mut g.values_any)
            },
            CfgArg::Other(_) => Some(CheckFault::BadArgument(i)),
        };
        match fault {
            Some(f) => {
                proof {
                    lemma_args_refused(args@, yes, no, i + 1, args@.len() as int);
                    assert(args@.take(args@.len() as int) =~= args@);
                }
                return Err(f);
            },
            None => {},
        }
        i += 1;
    }
    assert(args@.take(i as int) =~= args@);
    Ok(g)
}

/// What a whole argument says.
fn whole(item: &CheckItem, yes: u32, no: u32) -> (out: Result<Gathered, CheckFault>)
    ensures
        match whole_spec(item.arg_seq(), yes, no) {
            Ok(spec) => out is Ok && out->Ok_0.model() == spec,
            Err(fault) => out is Err && out->Err_0 == fault,
        },
{
    let args = match &item.args {
        Some(args) => args,
        None => {
            return Err(CheckFault::Shape);
        },
    };
    let mut g = match gather(args, yes, no) {
        Ok(g) => g,
        Err(fault) => {
            return Err(fault);
        },
    };
    if !g.values_given && !g.any {
        let _ = hash_set_insert(&mut g.values, 0);
    } else if !hash_set_is_empty(&g.values) && g.values_any {
        return Err(CheckFault::ValuesAndAny);
    }
    if g.any && !(g.names.len() == 0 && hash_set_is_empty(&g.values) && !g.values_given
        && !g.values_any) {
        return Err(CheckFault::AnyNotAlone);
    }
    Ok(g)
}

impl View for CheckCfg {
    type V = CheckModel;

    closed spec fn view(&self) -> CheckModel {
        CheckModel {
            exhaustive_names: self.exhaustive_names,
            exhaustive_values: self.exhaustive_values,
            expecteds: expected_models(self.expecteds@),
        }
    }
}

impl CheckCfg {
    pub closed spec fn wf(&self) -> bool {
        self.expecteds.wf()
    }

    /// A name may have `values`, or any value.
    fn expect(&mut self, name: u32, values: &FxHashSet, any: bool)
        requires
            old(self).wf(),
        ensures
            final(self).wf(),
            final(self)@ == (CheckModel {
                expecteds: with_expected(old(self)@.expecteds, name, members(*values), any),
                ..old(self)@
            }),
    {
        let ghost before = self.expecteds@;
        let ghost models = expected_models(before);
        let key = name as u128;
        proof {
            self.expecteds.lemma_distinct();
            lemma_same_places(before, key);
        }
        match self.expecteds.position(key) {
            Some(at) => {
                assert(models[at as int].1 == before[at as int].1@);
                let known = self.expecteds.value_mut(at);
                if any {
                    *known = ExpectedValues::Any;
                } else {
                    match known {
                        ExpectedValues::These(set) => {
                            hash_set_extend(set, values);
                        },
                        ExpectedValues::Any => {},
                    }
                }
                assert(self@.expecteds =~= with_expected(models, name, members(*values), any));
            },
            None => {
                let expected = if any {
                    ExpectedValues::Any
                } else {
                    let mut set = fx_hash_set();
                    hash_set_extend(&mut set, values);
                    assert(members(set) =~= members(*values));
                    ExpectedValues::These(set)
                };
                self.expecteds.insert(key, expected);
                assert(self@.expecteds =~= with_expected(models, name, members(*values), any));
            },
        }
    }

    /// What is expected of a name: nothing is said, or any value, or some.
    pub fn expected(&self, name: u32) -> (values: Option<&ExpectedValues>)
        requires
            self.wf(),
        ensures
            values is Some == has_id(self@.expecteds, name as u128),
            values matches Some(v) ==> v@ == self@.expecteds[id_place(
                self@.expecteds,
                name as u128,
            )].1,
    {
        proof {
            self.expecteds.lemma_distinct();
            lemma_same_places(self.expecteds@, name as u128);
        }
        match self.expecteds.position(name as u128) {
            Some(at) => Some(self.expecteds.at(at).1),
            None => None,
        }
    }
}

proof fn lemma_same_places(m: Seq<(u128, ExpectedValues)>, key: u128)
    requires
        crate::id_map::distinct_ids(m),
    ensures
        has_id(expected_models(m), key) == has_id(m, key),
        has_id(m, key) ==> id_place(expected_models(m), key) == id_place(m, key) && id_at(
            m,
            key,
            id_place(m, key),
        ),
{
    let models = expected_models(m);
    assert forall|i: int, j: int| 0 <= i < j < models.len() implies (#[trigger] models[i]).0 != (
    #[trigger] models[j]).0 by {
        assert(m[i].0 != m[j].0);
    }
    if has_id(m, key) {
        let i = id_place(m, key);
        assert(id_at(m, key, i));
        assert(id_at(models, key, i));
        crate::id_map::lemma_place_is_unique(models, key, i);
    }
    if has_id(models, key) {
        let i = id_place(models, key);
        assert(id_at(models, key, i));
        assert(id_at(m, key, i));
    }
}

/// What `--check-cfg` arguments expect, or the place of the first that is refused and why. If there
/// are any, names and values that are not expected are reported.
pub fn parse_check_cfg(items: &Vec<CheckItem>, yes: u32, no: u32) -> (out: Result<
    CheckCfg,
    (usize, CheckFault),
>)
    ensures
        match after_checks(items@, items@.len() > 0, yes, no) {
            Ok(model) => {
                &&& out is Ok
                &&& out->Ok_0.wf()
                &&& out->Ok_0@ == model
            },
            Err(fault) => out is Err && out->Err_0.0 == fault.0 && out->Err_0.1 == fault.1,
        },
{
    let given = items.len() > 0;
    let mut check_cfg = CheckCfg {
        exhaustive_names: given,
        exhaustive_values: given,
        expecteds: IdMap::new(),
    };
    let mut i: usize = 0;
    assert(items@.take(0) =~= Seq::<CheckItem>::empty());
    assert(check_cfg@.expecteds =~= Seq::<(u128, ExpectedModel)>::empty());
    while i < items.len()
        invariant
            i <= items@.len(),
            given == (items@.len() > 0),
            check_cfg.wf(),
            after_checks(items@.take(i as int), given, yes, no) == Ok::<
                CheckModel,
                (int, CheckFault),
            >(check_cfg@),
        decreases items@.len() - i,
    {
        proof {
            assert(items@.take(i + 1).drop_last() =~= items@.take(i as int));
            assert(items@.take(i + 1).last() == items@[i as int]);
        }
        let g = match whole(&items[i], yes, no) {
            Ok(g) => g,
            Err(fault) => {
                proof {
                    lemma_checks_refused(items@, given, yes, no, i + 1, items@.len() as int);
                    assert(items@.take(items@.len() as int) =~= items@);
                }
                return Err((i, fault));
            },
        };
        if g.any {
            check_cfg.exhaustive_names = false;
        } else {
            let ghost base = check_cfg@;
            let ghost names = g.names@;
            let mut n: usize = 0;
            assert(names.take(0) =~= Seq::<u32>::empty());
            while n < g.names.len()
                invariant
                    n <= names.len(),
                    names == g.names@,
                    check_cfg.wf(),
                    check_cfg@ == (CheckModel {
                        expecteds: with_all_expected(
                            base.expecteds,
                            names.take(n as int),
                            members(g.values),
                            g.values_any,
                        ),
                        ..base
                    }),
                decreases names.len() - n,
            {
                proof {
                    assert(names.take(n + 1).drop_last() =~= names.take(n as int));
                    assert(names.take(n + 1).last() == names[n as int]);
                }
                check_cfg.expect(g.names[n], &g.values, g.values_any);
                n += 1;
            }
            assert(names.take(n as int) =~= names);
        }
        i += 1;
    }
    assert(items@.take(i as int) =~= items@);
    Ok(check_cfg)
}

/// Where to read more.
pub open spec fn visit_note() -> Seq<char> {
    "visit <https://doc.rust-lang.org/nightly/rustc/check-cfg.html> for more details"@
}

impl CheckFault {
    /// What is wrong.
    pub open spec fn reason(self) -> Seq<char> {
        match self {
            CheckFault::Shape =>
                "expected `cfg(name, values(\"value1\", \"value2\", ... \"valueN\"))`"@,
            CheckFault::NameAfterValues => "`cfg()` names cannot be after values"@,
            CheckFault::NameIsKeyword => "malformed `cfg` input, expected a valid identifier"@,
            CheckFault::AnyTwice => "`any()` cannot be specified multiple times"@,
            CheckFault::AnyHasArgument(_) => "`any()` takes no argument"@,
            CheckFault::ValuesBeforeNames =>
                "`values()` cannot be specified before the names"@,
            CheckFault::ValuesTwice => "`values()` cannot be specified multiple times"@,
            CheckFault::ValuesAnyTwice(_, _) =>
                "`any()` in `values()` cannot be specified multiple times"@,
            CheckFault::ValuesAnyHasArgument(_, _) =>
                "`any()` in `values()` takes no argument"@,
            CheckFault::ValuesNoneHasArgument(_, _) =>
                "`none()` in `values()` takes no argument"@,
            CheckFault::BadValue(_, _) =>
                "`values()` arguments must be string literals, `none()` or `any()`"@,
            CheckFault::BadArgument(_) =>
                "`cfg()` arguments must be simple identifiers, `any()` or `values(...)`"@,
            CheckFault::ValuesAndAny =>
                "`values()` arguments cannot specify string literals and `any()` at the same time"@,
            CheckFault::AnyNotAlone => "`cfg(any())` can only be provided in isolation"@,
        }
    }

    fn to_str(self) -> (s: &'static str)
        ensures
            s@ == self.reason(),
    {
        match self {
            CheckFault::Shape =>
                "expected `cfg(name, values(\"value1\", \"value2\", ... \"valueN\"))`",
            CheckFault::NameAfterValues => "`cfg()` names cannot be after values",
            CheckFault::NameIsKeyword => "malformed `cfg` input, expected a valid identifier",
            CheckFault::AnyTwice => "`any()` cannot be specified multiple times",
            CheckFault::AnyHasArgument(_) => "`any()` takes no argument",
            CheckFault::ValuesBeforeNames => "`values()` cannot be specified before the names",
            CheckFault::ValuesTwice => "`values()` cannot be specified multiple times",
            CheckFault::ValuesAnyTwice(_, _) =>
                "`any()` in `values()` cannot be specified multiple times",
            CheckFault::ValuesAnyHasArgument(_, _) => "`any()` in `values()` takes no argument",
            CheckFault::ValuesNoneHasArgument(_, _) => "`none()` in `values()` takes no argument",
            CheckFault::BadValue(_, _) =>
                "`values()` arguments must be string literals, `none()` or `any()`",
            CheckFault::BadArgument(_) =>
                "`cfg()` arguments must be simple identifiers, `any()` or `values(...)`",
            CheckFault::ValuesAndAny =>
                "`values()` arguments cannot specify string literals and `any()` at the same time",
            CheckFault::AnyNotAlone => "`cfg(any())` can only be provided in isolation",
        }
    }

    /// The argument that is at fault, if one is.
    pub open spec fn blamed(self, args: Seq<CfgArg>) -> Option<ArgNote> {
        match self {
            CheckFault::AnyHasArgument(i) => arg_note(args, i),
            CheckFault::BadArgument(i) => arg_note(args, i),
            CheckFault::ValuesAnyTwice(i, j) => value_note(args, i, j),
            CheckFault::ValuesAnyHasArgument(i, j) => value_note(args, i, j),
            CheckFault::ValuesNoneHasArgument(i, j) => value_note(args, i, j),
            CheckFault::BadValue(i, j) => value_note(args, i, j),
            _ => None,
        }
    }

    /// The notes below the message about an argument that is refused: what is at fault, what is
    /// wrong with it, and where to read more.
    pub fn notes(self, args: &Vec<CfgArg>) -> (notes: Vec<String>)
        ensures
            crate::text::texts(notes@) == (match self.blamed(args@) {
                Some(note) => seq![blame(note)],
                None => Seq::empty(),
            }) + seq![self.reason(), visit_note()],
    {
        let mut notes: Vec<String> = Vec::new();
        let blamed = match self {
            CheckFault::AnyHasArgument(i) => note_of_arg(args, i),
            CheckFault::BadArgument(i) => note_of_arg(args, i),
            CheckFault::ValuesAnyTwice(i, j) => note_of_value(args, i, j),
            CheckFault::ValuesAnyHasArgument(i, j) => note_of_value(args, i, j),
            CheckFault::ValuesNoneHasArgument(i, j) => note_of_value(args, i, j),
            CheckFault::BadValue(i, j) => note_of_value(args, i, j),
            _ => None,
        };
        match blamed {
            Some(note) => {
                notes.push(blame_text(note));
            },
            None => {},
        }
        let ghost first = match self.blamed(args@) {
            Some(note) => seq![blame(note)],
            None => Seq::<Seq<char>>::empty(),
        };
        assert(crate::text::texts(notes@) =~= first);
        let mut reason = String::new();
        reason.append(self.to_str());
        assert(reason@ =~= self.reason());
        notes.push(reason);
        let mut visit = String::new();
        visit.append(
            "visit <https://doc.rust-lang.org/nightly/rustc/check-cfg.html> for more details",
        );
        assert(visit@ =~= visit_note());
        notes.push(visit);
        assert(crate::text::texts(notes@) =~= first + seq![self.reason(), visit_note()]);
        notes
    }
}

/// The note about an argument of `cfg(..)`.
pub open spec fn arg_note(args: Seq<CfgArg>, i: usize) -> Option<ArgNote> {
    if i < args.len() {
        match args[i as int] {
            CfgArg::Any(_, note) => Some(note),
            CfgArg::Other(note) => Some(note),
            _ => None,
        }
    } else {
        None
    }
}

fn note_of_arg(args: &Vec<CfgArg>, i: usize) -> (note: Option<&ArgNote>)
    ensures
        match note {
            Some(n) => arg_note(args@, i) == Some(*n),
            None => arg_note(args@, i) is None,
        },
{
    if i < args.len() {
        match &args[i] {
            CfgArg::Any(_, note) => Some(note),
            CfgArg::Other(note) => Some(note),
            _ => None,
        }
    } else {
        None
    }
}

/// The note about an argument of `values(..)`.
pub open spec fn value_note(args: Seq<CfgArg>, i: usize, j: usize) -> Option<ArgNote> {
    if i < args.len() {
        match args[i as int] {
            CfgArg::Values(list) => if j < list@.len() {
                match list@[j as int] {
                    ValueArg::Any(_, note) => Some(note),
                    ValueArg::Absent(_, note) => Some(note),
                    ValueArg::Other(note) => Some(note),
                    ValueArg::Str(_) => None,
                }
            } else {
                None
            },
            _ => None,
        }
    } else {
        None
    }
}

fn note_of_value(args: &Vec<CfgArg>, i: usize, j: usize) -> (note: Option<&ArgNote>)
    ensures
        match note {
            Some(n) => value_note(args@, i, j) == Some(*n),
            None => value_note(args@, i, j) is None,
        },
{
    if i < args.len() {
        match &args[i] {
            CfgArg::Values(list) => if j < list.len() {
                match &list[j] {
                    ValueArg::Any(_, note) => Some(note),
                    ValueArg::Absent(_, note) => Some(note),
                    ValueArg::Other(note) => Some(note),
                    ValueArg::Str(_) => None,
                }
            } else {
                None
            },
            _ => None,
        }
    } else {
        None
    }
}

/// What is at fault, in words.
pub open spec fn blame(note: ArgNote) -> Seq<char> {
    match note.literal {
        Some(literal) => "`"@ + note.text@ + "` is "@ + literal.0@ + " "@ + literal.1@
            + " literal"@,
        None => "`"@ + note.text@ + "` is invalid"@,
    }
}

fn blame_text(note: &ArgNote) -> (text: String)
    ensures
        text@ == blame(*note),
{
    let mut text = String::new();
    text.append("`");
    text.append(note.text.as_str());
    match &note.literal {
        Some(literal) => {
            text.append("` is ");
            text.append(literal.0.as_str());
            text.append(" ");
            text.append(literal.1.as_str());
            text.append(" literal");
        },
        None => {
            text.append("` is invalid");
        },
    }
    assert(text@ =~= blame(*note));
    text
}

/// What is expected of a name.
pub open spec fn expected_of(m: Seq<(u128, ExpectedModel)>, name: u32) -> Option<ExpectedModel> {
    if has_id(m, name as u128) {
        Some(m[id_place(m, name as u128)].1)
    } else {
        None
    }
}

/// A name that values are expected of may have them and those it could have before; once it may have
/// any value, it stays so. What is expected of other names does not change.
pub proof fn law_expected_values_add_up(
    m: Seq<(u128, ExpectedModel)>,
    name: u32,
    values: Set<u128>,
    any: bool,
    other: u32,
)
    requires
        distinct_ids(m),
    ensures
        distinct_ids(with_expected(m, name, values, any)),
        any ==> expected_of(with_expected(m, name, values, any), name) == Some(None::<Set<u128>>),
        expected_of(m, name) == Some(None::<Set<u128>>) ==> expected_of(
            with_expected(m, name, values, any),
            name,
        ) == Some(None::<Set<u128>>),
        !any && expected_of(m, name) is None ==> expected_of(
            with_expected(m, name, values, any),
            name,
        ) == Some(Some(values)),
        !any && expected_of(m, name) is Some && expected_of(m, name)->0 is Some ==> {
            let now = expected_of(with_expected(m, name, values, any), name);
            now is Some && now->0 is Some && forall|v: u128|
                (#[trigger] now->0->0.contains(v)) <==> values.contains(v)
                    || expected_of(m, name)->0->0.contains(v)
        },
        other != name ==> expected_of(with_expected(m, name, values, any), other) == expected_of(
            m,
            other,
        ),
{
    let key = name as u128;
    let now = if has_id(m, key) {
        match m[id_place(m, key)].1 {
            Some(known) => if any {
                None
            } else {
                Some(known.union(values))
            },
            None => None,
        }
    } else if any {
        None
    } else {
        Some(values)
    };
    let after = with_expected(m, name, values, any);
    law_an_entry_is_found(m, key, now, other as u128);
    let p = id_place(after, key);
    assert(id_at(after, key, p));
    let q = choose|q: int| 0 <= q < after.len() && after[q] == (key, now);
    assert(id_at(after, key, q));
    if p != q {
        if p < q {
            assert(after[p].0 != after[q].0);
        } else {
            assert(after[q].0 != after[p].0);
        }
    }
    if other != name && has_id(m, other as u128) {
        let a = id_place(m, other as u128);
        let b = id_place(after, other as u128);
        assert(id_at(m, other as u128, a));
        assert(id_at(after, other as u128, b));
        assert(after[a] == m[a]);
        if a != b {
            if a < b {
                assert(after[a].0 != after[b].0);
            } else {
                assert(after[b].0 != after[a].0);
            }
        }
    }
}

/// Each name more may have the values too.
pub proof fn law_every_name_is_expected(
    m: Seq<(u128, ExpectedModel)>,
    names: Seq<u32>,
    name: u32,
    values: Set<u128>,
    any: bool,
)
    ensures
        with_all_expected(m, Seq::empty(), values, any) == m,
        with_all_expected(m, names.push(name), values, any) == with_expected(
            with_all_expected(m, names, values, any),
            name,
            values,
            any,
        ),
{
    assert(names.push(name).drop_last() =~= names);
}

/// What one value more says: a string is expected, and so is having none; any value at all may be
/// allowed once, and nothing else is a value. After a fault nothing counts.
pub proof fn law_a_value_is_expected(
    args: Seq<ValueArg>,
    arg: ValueArg,
    at: usize,
    values: Set<u128>,
    any: bool,
)
    requires
        args.len() < usize::MAX,
    ensures
        after_values(Seq::empty(), at, values, any) == Ok::<(Set<u128>, bool), CheckFault>(
            (values, any),
        ),
        after_values(args, at, values, any) is Err ==> after_values(
            args.push(arg),
            at,
            values,
            any,
        ) == after_values(args, at, values, any),
        after_values(args, at, values, any) is Ok ==> {
            let before = after_values(args, at, values, any)->Ok_0;
            let now = after_values(args.push(arg), at, values, any);
            let j = args.len() as usize;
            match arg {
                ValueArg::Str(s) => now is Ok && now->Ok_0.1 == before.1 && now->Ok_0.0
                    == before.0.insert((s + 1) as u128),
                ValueArg::Absent(empty, _) => if empty {
                    now is Ok && now->Ok_0.1 == before.1 && now->Ok_0.0 == before.0.insert(0)
                } else {
                    now is Err && now->Err_0 == CheckFault::ValuesNoneHasArgument(at, j)
                },
                ValueArg::Any(empty, _) => if before.1 {
                    now is Err && now->Err_0 == CheckFault::ValuesAnyTwice(at, j)
                } else if empty {
                    now is Ok && now->Ok_0.1 && now->Ok_0.0 == before.0
                } else {
                    now is Err && now->Err_0 == CheckFault::ValuesAnyHasArgument(at, j)
                },
                ValueArg::Other(_) => now is Err && now->Err_0 == CheckFault::BadValue(at, j),
            }
        },
{
    assert(args.push(arg).drop_last() =~= args);
}

/// What one argument more says: names come before their values, values come once and after a name,
/// and `any()` comes once. After a fault nothing counts.
pub proof fn law_names_come_before_values(args: Seq<CfgArg>, arg: CfgArg, yes: u32, no: u32)
    requires
        args.len() < usize::MAX,
    ensures
        after_args(args, yes, no) is Err ==> after_args(args.push(arg), yes, no) == after_args(
            args,
            yes,
            no,
        ),
        after_args(args, yes, no) is Ok ==> {
            let before = after_args(args, yes, no)->Ok_0;
            let now = after_args(args.push(arg), yes, no);
            let i = args.len() as usize;
            match arg {
                CfgArg::Name(name, keyword) => {
                    &&& now is Ok <==> !before.values_given && !keyword
                    &&& now is Ok ==> now->Ok_0 == (Spec { names: before.names.push(name), ..before
                    })
                    &&& before.values_given ==> now->Err_0 == CheckFault::NameAfterValues
                    &&& !before.values_given && keyword ==> now->Err_0 == CheckFault::NameIsKeyword
                },
                CfgArg::Bool(value) => {
                    &&& now is Ok <==> !before.values_given
                    &&& now is Ok && value ==> now->Ok_0 == (Spec {
                        names: before.names.push(yes),
                        ..before
                    })
                    &&& now is Ok && !value ==> now->Ok_0 == (Spec {
                        names: before.names.push(no),
                        ..before
                    })
                    &&& now is Err ==> now->Err_0 == CheckFault::NameAfterValues
                },
                CfgArg::Any(empty, _) => {
                    &&& now is Ok <==> !before.any && empty
                    &&& now is Ok ==> now->Ok_0 == (Spec { any: true, ..before })
                    &&& before.any ==> now->Err_0 == CheckFault::AnyTwice
                    &&& !before.any && !empty ==> now->Err_0 == CheckFault::AnyHasArgument(i)
                },
                CfgArg::Values(list) => {
                    let given = after_values(list@, i, before.values, before.values_any);
                    &&& now is Ok <==> before.names.len() > 0 && !before.values_given && given is Ok
                    &&& now is Ok ==> now->Ok_0.values == given->Ok_0.0 && now->Ok_0.values_any
                        == given->Ok_0.1 && now->Ok_0.values_given && now->Ok_0.names
                        == before.names && now->Ok_0.any == before.any
                    &&& before.names.len() == 0 ==> now->Err_0 == CheckFault::ValuesBeforeNames
                    &&& before.names.len() > 0 && before.values_given ==> now->Err_0
                        == CheckFault::ValuesTwice
                },
                CfgArg::Other(_) => now is Err && now->Err_0 == CheckFault::BadArgument(i),
            }
        },
{
    assert(args.push(arg).drop_last() =~= args);
}

/// A whole argument: names without values may have none, what is given otherwise stands, and
/// `any()` stands alone, as it does among values.
pub proof fn law_names_without_values_have_none(args: Seq<CfgArg>, yes: u32, no: u32)
    requires
        after_args(args, yes, no) is Ok,
    ensures
        whole_spec(None, yes, no) == Err::<Spec, CheckFault>(CheckFault::Shape),
        ({
            let spec = after_args(args, yes, no)->Ok_0;
            let whole = whole_spec(Some(args), yes, no);
            &&& !spec.values_given && !spec.any ==> whole is Ok && whole->Ok_0 == (Spec {
                values: spec.values.insert(0),
                ..spec
            })
            &&& spec.values_given && spec.values_any && spec.values != Set::<u128>::empty()
                ==> whole == Err::<Spec, CheckFault>(CheckFault::ValuesAndAny)
            &&& spec.values_given && !spec.any && (spec.values_any ==> spec.values == Set::<
                u128,
            >::empty()) ==> whole is Ok && whole->Ok_0 == spec
            &&& spec.any && spec.names.len() > 0 && (spec.values_any ==> spec.values == Set::<
                u128,
            >::empty()) ==> whole == Err::<Spec, CheckFault>(CheckFault::AnyNotAlone)
            &&& spec.any && spec.names.len() == 0 && spec.values == Set::<u128>::empty()
                && !spec.values_given && !spec.values_any ==> whole is Ok && whole->Ok_0 == spec
        }),
{
}

/// What one check more says: any name is expected from then on, or the names may have the values.
/// After a refusal nothing counts, and it is the first bad one that is refused. Names and values are
/// exhaustive exactly if there are checks, and names as long as no check allows any.
pub proof fn law_every_check_counts(
    items: Seq<CheckItem>,
    item: CheckItem,
    given: bool,
    yes: u32,
    no: u32,
)
    ensures
        after_checks(Seq::empty(), given, yes, no) is Ok,
        ({
            let start = after_checks(Seq::empty(), given, yes, no)->Ok_0;
            start.exhaustive_names == given && start.exhaustive_values == given
                && start.expecteds.len() == 0
        }),
        after_checks(items, given, yes, no) is Err ==> after_checks(
            items.push(item),
            given,
            yes,
            no,
        ) == after_checks(items, given, yes, no),
        after_checks(items, given, yes, no) is Ok ==> {
            let before = after_checks(items, given, yes, no)->Ok_0;
            let now = after_checks(items.push(item), given, yes, no);
            let spec = whole_spec(item.arg_seq(), yes, no);
            &&& spec is Err ==> now is Err && now->Err_0 == (items.len() as int, spec->Err_0)
            &&& spec is Ok ==> now is Ok && now->Ok_0.exhaustive_values == before.exhaustive_values
            &&& spec is Ok && spec->Ok_0.any ==> !now->Ok_0.exhaustive_names
                && now->Ok_0.expecteds == before.expecteds
            &&& spec is Ok && !spec->Ok_0.any ==> now->Ok_0.exhaustive_names
                == before.exhaustive_names && now->Ok_0.expecteds == with_all_expected(
                before.expecteds,
                spec->Ok_0.names,
                spec->Ok_0.values,
                spec->Ok_0.values_any,
            )
        },
{
    assert(items.push(item).drop_last() =~= items);
}

/// A value is allowed exactly if it is among those expected, or if any is.
pub proof fn law_expected_values_are_allowed(
    expected: &ExpectedValues,
    value: Option<u32>,
    allowed: bool,
)
    requires
        call_ensures(ExpectedValues::allows, (expected, value), allowed),
    ensures
        expected is Any ==> allowed,
        expected is These && value is None ==> (allowed <==> members(expected->0).contains(0)),
        expected is These && value is Some ==> (allowed <==> members(expected->0).contains(
            (value->0 + 1) as u128,
        )),
{
}

/// The notes about a refused argument end in what is wrong and where to read more; before that the
/// argument at fault is named, if one is.
pub proof fn law_a_refusal_says_what_is_wrong(
    fault: CheckFault,
    args: &Vec<CfgArg>,
    notes: Vec<String>,
)
    requires
        call_ensures(CheckFault::notes, (fault, args), notes),
    ensures
        notes@.len() >= 2,
        notes@.last()@
            == "visit <https://doc.rust-lang.org/nightly/rustc/check-cfg.html> for more details"@,
        notes@[notes@.len() - 2]@ == (match fault {
            CheckFault::Shape =>
                "expected `cfg(name, values(\"value1\", \"value2\", ... \"valueN\"))`"@,
            CheckFault::NameAfterValues => "`cfg()` names cannot be after values"@,
            CheckFault::NameIsKeyword => "malformed `cfg` input, expected a valid identifier"@,
            CheckFault::AnyTwice => "`any()` cannot be specified multiple times"@,
            CheckFault::AnyHasArgument(_) => "`any()` takes no argument"@,
            CheckFault::ValuesBeforeNames => "`values()` cannot be specified before the names"@,
            CheckFault::ValuesTwice => "`values()` cannot be specified multiple times"@,
            CheckFault::ValuesAnyTwice(_, _) =>
                "`any()` in `values()` cannot be specified multiple times"@,
            CheckFault::ValuesAnyHasArgument(_, _) => "`any()` in `values()` takes no argument"@,
            CheckFault::ValuesNoneHasArgument(_, _) => "`none()` in `values()` takes no argument"@,
            CheckFault::BadValue(_, _) =>
                "`values()` arguments must be string literals, `none()` or `any()`"@,
            CheckFault::BadArgument(_) =>
                "`cfg()` arguments must be simple identifiers, `any()` or `values(...)`"@,
            CheckFault::ValuesAndAny =>
                "`values()` arguments cannot specify string literals and `any()` at the same time"@,
            CheckFault::AnyNotAlone => "`cfg(any())` can only be provided in isolation"@,
        }),
        notes@.len() == 3 <==> fault.blamed(args@) is Some,
        fault.blamed(args@) is Some && fault.blamed(args@)->0.literal is None ==> notes@[0]@
            == "`"@ + fault.blamed(args@)->0.text@ + "` is invalid"@,
        fault.blamed(args@) is Some && fault.blamed(args@)->0.literal is Some ==> notes@[0]@
            == "`"@ + fault.blamed(args@)->0.text@ + "` is "@ + (
        fault.blamed(args@)->0.literal->0).0@ + " "@ + (fault.blamed(args@)->0.literal->0).1@
            + " literal"@,
{
    let texts = crate::text::texts(notes@);
    assert(texts.len() == notes@.len());
    assert(forall|i: int| 0 <= i < notes@.len() ==> texts[i] == (#[trigger] notes@[i])@);
}

/// The argument that is blamed is the one at the place that the fault names.
pub proof fn law_the_argument_at_fault_is_blamed(
    args: Seq<CfgArg>,
    i: usize,
    j: usize,
    note: ArgNote,
)
    requires
        i < args.len(),
    ensures
        args[i as int] == CfgArg::Other(note) ==> CheckFault::BadArgument(i).blamed(args) == Some(
            note,
        ),
        args[i as int] == CfgArg::Any(false, note) ==> CheckFault::AnyHasArgument(i).blamed(args)
            == Some(note),
        args[i as int] is Values && j < args[i as int]->Values_0@.len() ==> {
            let value = args[i as int]->Values_0@[j as int];
            &&& value == ValueArg::Other(note) ==> CheckFault::BadValue(i, j).blamed(args) == Some(
                note,
            )
            &&& value == ValueArg::Absent(false, note) ==> CheckFault::ValuesNoneHasArgument(
                i,
                j,
            ).blamed(args) == Some(note)
            &&& value == ValueArg::Any(false, note) ==> CheckFault::ValuesAnyHasArgument(
                i,
                j,
            ).blamed(args) == Some(note)
            &&& value == ValueArg::Any(true, note) ==> CheckFault::ValuesAnyTwice(i, j).blamed(args)
                == Some(note)
        },
{
}

} // verus!
