//! Conditional compilation: what `--cfg` sets, and what `--check-cfg` expects to be set.
//!
//! The arguments are parsed as meta items elsewhere. Names are interned: a symbol is a number.

use vstd::prelude::*;
use vstd::string::StringExecFns;

use crate::id_map::has_id;
use crate::id_map::law_an_entry_is_found;
use crate::id_map::with_id;
use crate::id_map::IdMap;
use crate::text::to_chars;

verus! {

/// The number of a value, or of there being none.
pub open spec fn value_id(value: Option<u32>) -> u128 {
    match value {
        None => 0,
        Some(v) => (v + 1) as u128,
    }
}

pub(crate) fn number_of_value(value: Option<u32>) -> (id: u128)
    ensures
        id == value_id(value),
{
    match value {
        None => 0,
        Some(v) => v as u128 + 1,
    }
}

/// The number of a name with a value, or with none.
pub open spec fn cfg_id(name: u32, value: Option<u32>) -> u128 {
    (name as int * 0x2_0000_0000 + value_id(value)) as u128
}

fn number_of_cfg(name: u32, value: Option<u32>) -> (id: u128)
    ensures
        id == cfg_id(name, value),
{
    (name as u128) * 0x2_0000_0000 + number_of_value(value)
}

/// Different settings have different numbers.
pub proof fn law_settings_are_told_apart(n1: u32, v1: Option<u32>, n2: u32, v2: Option<u32>)
    ensures
        cfg_id(n1, v1) == cfg_id(n2, v2) <==> n1 == n2 && v1 == v2,
{
}

/// The settings, in the order in which they were first made.
pub struct Cfg {
    set: IdMap<()>,
}

impl View for Cfg {
    type V = Seq<(u128, ())>;

    closed spec fn view(&self) -> Seq<(u128, ())> {
        self.set@
    }
}

impl Cfg {
    pub closed spec fn wf(&self) -> bool {
        self.set.wf()
    }

    pub fn new() -> (cfg: Cfg)
        ensures
            cfg.wf(),
            cfg@ == Seq::<(u128, ())>::empty(),
    {
        Cfg { set: IdMap::new() }
    }

    /// Makes a setting.
    pub fn insert(&mut self, name: u32, value: Option<u32>)
        requires
            old(self).wf(),
        ensures
            final(self).wf(),
            final(self)@ == with_id(old(self)@, cfg_id(name, value), ()),
    {
        self.set.insert(number_of_cfg(name, value), ());
    }

    /// Whether a setting was made.
    pub fn contains(&self, name: u32, value: Option<u32>) -> (yes: bool)
        requires
            self.wf(),
        ensures
            yes == has_id(self@, cfg_id(name, value)),
    {
        self.set.contains(number_of_cfg(name, value))
    }

    pub fn len(&self) -> (n: usize)
        requires
            self.wf(),
        ensures
            n == self@.len(),
    {
        self.set.len()
    }
}

/// What follows the name in a `--cfg` argument.
#[derive(Clone, Copy, PartialEq, Eq, Structural, Debug)]
pub enum CfgKind {
    /// Nothing.
    Word,
    /// A string.
    Str(u32),
    /// A value that is not a string.
    OtherValue,
    /// Something in parentheses.
    List,
}

/// A `--cfg` argument that could be parsed.
#[derive(Clone, Copy, PartialEq, Eq, Structural, Debug)]
pub struct CfgItem {
    /// How many segments the name has.
    pub segments: usize,
    pub name: u32,
    /// Whether the name is a word that can start a path and be nothing else.
    pub keyword: bool,
    pub kind: CfgKind,
}

/// Why a `--cfg` argument is refused.
#[derive(Clone, Copy, PartialEq, Eq, Structural, Debug)]
pub enum CfgFault {
    KeyNotIdentifier,
    ValueNotString,
    KeyIsKeyword,
    /// It is neither a key nor a key with a value.
    Shape,
    /// It is neither, and looks as if its quotes had been lost.
    LostQuotes,
}

/// The argument holds a value without its quotes.
pub open spec fn looks_unquoted(s: Seq<char>) -> bool {
    &&& s.contains('=')
    &&& forall|i: int| 0 <= i < s.len() - 1 ==> !(s[i] == '=' && #[trigger] s[i + 1] == '"')
    &&& s.last() != '"'
}

/// What a `--cfg` argument sets.
pub open spec fn cfg_setting(s: Seq<char>, parsed: Option<CfgItem>) -> Result<
    (u32, Option<u32>),
    CfgFault,
> {
    let shape = if looks_unquoted(s) {
        CfgFault::LostQuotes
    } else {
        CfgFault::Shape
    };
    match parsed {
        None => Err(shape),
        Some(item) => if item.segments != 1 {
            Err(CfgFault::KeyNotIdentifier)
        } else {
            match item.kind {
                CfgKind::List => Err(shape),
                CfgKind::OtherValue => Err(CfgFault::ValueNotString),
                CfgKind::Word => if item.keyword {
                    Err(CfgFault::KeyIsKeyword)
                } else {
                    Ok((item.name, None))
                },
                CfgKind::Str(value) => if item.keyword {
                    Err(CfgFault::KeyIsKeyword)
                } else {
                    Ok((item.name, Some(value)))
                },
            }
        },
    }
}

fn is_unquoted(s: &str) -> (yes: bool)
    ensures
        yes == looks_unquoted(s@),
{
    let chars = to_chars(s);
    let mut equals = false;
    let mut i: usize = 0;
    while i < chars.len()
        invariant
            chars@ == s@,
            i <= chars@.len(),
            equals == chars@.take(i as int).contains('='),
            forall|k: int|
                0 <= k < i - 1 ==> !(chars@[k] == '=' && #[trigger] chars@[k + 1] == '"'),
        decreases chars@.len() - i,
    {
        let c = chars[i];
        if i > 0 && chars[i - 1] == '=' && c == '"' {
            assert(s@[i - 1] == '=' && s@[i - 1 + 1] == '"');
            return false;
        }
        proof {
            let before = chars@.take(i as int);
            let after = chars@.take(i + 1);
            assert(after =~= before.push(c));
            if c == '=' {
                assert(after[i as int] == '=');
            } else if after.contains('=') {
                let k = choose|k: int| 0 <= k < after.len() && after[k] == '=';
                assert(before[k] == '=');
            }
            if before.contains('=') {
                let k = choose|k: int| 0 <= k < before.len() && before[k] == '=';
                assert(after[k] == '=');
            }
        }
        if c == '=' {
            equals = true;
        }
        i += 1;
    }
    assert(chars@.take(i as int) =~= s@);
    equals && chars[chars.len() - 1] != '"'
}

/// What a `--cfg` argument sets, or why it is refused.
pub fn cfg_of_argument(s: &str, parsed: Option<CfgItem>) -> (setting: Result<
    (u32, Option<u32>),
    CfgFault,
>)
    ensures
        setting == cfg_setting(s@, parsed),
{
    match parsed {
        Some(item) => {
            if item.segments != 1 {
                return Err(CfgFault::KeyNotIdentifier);
            }
            match item.kind {
                CfgKind::List => {},
                CfgKind::OtherValue => {
                    return Err(CfgFault::ValueNotString);
                },
                CfgKind::Word => {
                    if item.keyword {
                        return Err(CfgFault::KeyIsKeyword);
                    }
                    return Ok((item.name, None));
                },
                CfgKind::Str(value) => {
                    if item.keyword {
                        return Err(CfgFault::KeyIsKeyword);
                    }
                    return Ok((item.name, Some(value)));
                },
            }
        },
        None => {},
    }
    if is_unquoted(s) {
        Err(CfgFault::LostQuotes)
    } else {
        Err(CfgFault::Shape)
    }
}

impl CfgFault {
    /// What is wrong.
    pub open spec fn reason(self) -> Seq<char> {
        match self {
            CfgFault::KeyNotIdentifier => "argument key must be an identifier"@,
            CfgFault::ValueNotString => "argument value must be a string"@,
            CfgFault::KeyIsKeyword => "malformed `cfg` input, expected a valid identifier"@,
            CfgFault::Shape => "expected `key` or `key=\"value\"`"@,
            CfgFault::LostQuotes =>
                "expected `key` or `key=\"value\"`, ensure escaping is appropriate for your shell, try 'key=\"value\"' or key=\\\"value\\\""@,
        }
    }

    fn to_str(self) -> (s: &'static str)
        ensures
            s@ == self.reason(),
    {
        match self {
            CfgFault::KeyNotIdentifier => "argument key must be an identifier",
            CfgFault::ValueNotString => "argument value must be a string",
            CfgFault::KeyIsKeyword => "malformed `cfg` input, expected a valid identifier",
            CfgFault::Shape => "expected `key` or `key=\"value\"`",
            CfgFault::LostQuotes =>
                "expected `key` or `key=\"value\"`, ensure escaping is appropriate for your shell, try 'key=\"value\"' or key=\\\"value\\\"",
        }
    }

    /// The message about an argument.
    pub fn message(self, s: &str) -> (text: String)
        ensures
            text@ == "invalid `--cfg` argument: `"@ + s@ + "` ("@ + self.reason() + ")"@,
    {
        let mut text = String::new();
        text.append("invalid `--cfg` argument: `");
        text.append(s);
        text.append("` (");
        text.append(self.to_str());
        text.append(")");
        assert(text@ =~= "invalid `--cfg` argument: `"@ + s@ + "` ("@ + self.reason() + ")"@);
        text
    }
}

/// The settings that the arguments make one by one, or the place of the first that is refused.
pub open spec fn cfg_settings(args: Seq<String>, parsed: Seq<Option<CfgItem>>) -> Result<
    Seq<(u128, ())>,
    (int, CfgFault),
>
    decreases args.len(),
{
    if args.len() == 0 {
        Ok(Seq::empty())
    } else {
        match cfg_settings(args.drop_last(), parsed) {
            Err(fault) => Err(fault),
            Ok(before) => {
                let n = args.len() - 1;
                match cfg_setting(args[n]@, parsed[n]) {
                    Ok(setting) => Ok(with_id(before, cfg_id(setting.0, setting.1), ())),
                    Err(fault) => Err((n, fault)),
                }
            },
        }
    }
}

/// The settings that `--cfg` arguments make, or the place of the first that is refused and why.
pub fn parse_cfg(cfgs: &Vec<String>, parsed: &Vec<Option<CfgItem>>) -> (out: Result<
    Cfg,
    (usize, CfgFault),
>)
    requires
        parsed@.len() == cfgs@.len(),
    ensures
        match cfg_settings(cfgs@, parsed@) {
            Ok(settings) => {
                &&& out is Ok
                &&& out->Ok_0.wf()
                &&& out->Ok_0@ == settings
            },
            Err(fault) => out is Err && out->Err_0.0 == fault.0 && out->Err_0.1 == fault.1,
        },
{
    let mut cfg = Cfg::new();
    let mut i: usize = 0;
    assert(cfgs@.take(0) =~= Seq::<String>::empty());
    while i < cfgs.len()
        invariant
            i <= cfgs@.len(),
            parsed@.len() == cfgs@.len(),
            cfg.wf(),
            cfg_settings(cfgs@.take(i as int), parsed@) == Ok::<
                Seq<(u128, ())>,
                (int, CfgFault),
            >(cfg@),
        decreases cfgs@.len() - i,
    {
        proof {
            assert(cfgs@.take(i + 1).drop_last() =~= cfgs@.take(i as int));
            assert(cfgs@.take(i + 1)[i as int] == cfgs@[i as int]);
        }
        match cfg_of_argument(cfgs[i].as_str(), parsed[i]) {
            Ok(setting) => {
                cfg.insert(setting.0, setting.1);
            },
            Err(fault) => {
                proof {
                    lemma_refused(cfgs@, parsed@, i + 1, cfgs@.len() as int);
                    assert(cfgs@.take(cfgs@.len() as int) =~= cfgs@);
                }
                return Err((i, fault));
            },
        }
        i += 1;
    }
    assert(cfgs@.take(i as int) =~= cfgs@);
    Ok(cfg)
}

/// Once an argument is refused, nothing after it matters.
proof fn lemma_refused(args: Seq<String>, parsed: Seq<Option<CfgItem>>, n: int, k: int)
    requires
        0 <= n <= k <= args.len(),
        cfg_settings(args.take(n), parsed) is Err,
    ensures
        cfg_settings(args.take(k), parsed) == cfg_settings(args.take(n), parsed),
    decreases k - n,
{
    if n < k {
        lemma_refused(args, parsed, n, k - 1);
        assert(args.take(k).drop_last() =~= args.take(k - 1));
    }
}

/// A target feature, as far as configuration goes.
#[derive(Clone, Copy, PartialEq, Eq, Structural, Debug)]
pub struct TargetFeature {
    pub symbol: u32,
    /// Whether the feature is visible to conditional compilation.
    pub in_cfg: bool,
    /// Whether it takes a nightly compiler to see it.
    pub requires_nightly: bool,
    /// Whether the feature is enabled.
    pub enabled: bool,
}

/// The names of the settings that depend on the target.
#[derive(Clone, Copy, PartialEq, Eq, Structural, Debug)]
pub struct TargetNames {
    pub target_feature: u32,
    pub has_reliable_f16: u32,
    pub has_reliable_f16_math: u32,
    pub has_reliable_f128: u32,
    pub has_reliable_f128_math: u32,
    pub crt_static: u32,
}

/// What the target supports.
#[derive(Clone, Copy, PartialEq, Eq, Structural, Debug)]
pub struct TargetSupport {
    pub has_reliable_f16: bool,
    pub has_reliable_f16_math: bool,
    pub has_reliable_f128: bool,
    pub has_reliable_f128_math: bool,
}

/// The feature is set.
pub open spec fn feature_is_set(f: TargetFeature, nightly: bool) -> bool {
    f.in_cfg && (nightly || !f.requires_nightly) && f.enabled
}

/// The settings with those for target features.
pub open spec fn with_features(
    cfg: Seq<(u128, ())>,
    features: Seq<TargetFeature>,
    name: u32,
    nightly: bool,
) -> Seq<(u128, ())>
    decreases features.len(),
{
    if features.len() == 0 {
        cfg
    } else {
        let before = with_features(cfg, features.drop_last(), name, nightly);
        if feature_is_set(features.last(), nightly) {
            with_id(before, cfg_id(name, Some(features.last().symbol)), ())
        } else {
            before
        }
    }
}

/// The settings with one more, if it applies.
pub open spec fn with_flag(
    cfg: Seq<(u128, ())>,
    applies: bool,
    name: u32,
    value: Option<u32>,
) -> Seq<(u128, ())> {
    if applies {
        with_id(cfg, cfg_id(name, value), ())
    } else {
        cfg
    }
}

/// Adds the settings that depend on the target.
pub fn add_configuration(
    cfg: &mut Cfg,
    features: &Vec<TargetFeature>,
    support: TargetSupport,
    names: TargetNames,
    is_nightly_build: bool,
    is_crt_static: bool,
)
    requires
        old(cfg).wf(),
    ensures
        final(cfg).wf(),
        final(cfg)@ == ({
            let m0 = with_features(
                old(cfg)@,
                features@,
                names.target_feature,
                is_nightly_build,
            );
            let m1 = with_flag(m0, support.has_reliable_f16, names.has_reliable_f16, None);
            let m2 = with_flag(
                m1,
                support.has_reliable_f16_math,
                names.has_reliable_f16_math,
                None,
            );
            let m3 = with_flag(m2, support.has_reliable_f128, names.has_reliable_f128, None);
            let m4 = with_flag(
                m3,
                support.has_reliable_f128_math,
                names.has_reliable_f128_math,
                None,
            );
            with_flag(m4, is_crt_static, names.target_feature, Some(names.crt_static))
        }),
{
    let ghost before = cfg@;
    let mut i: usize = 0;
    assert(features@.take(0) =~= Seq::<TargetFeature>::empty());
    while i < features.len()
        invariant
            i <= features@.len(),
            cfg.wf(),
            cfg@ == with_features(
                before,
                features@.take(i as int),
                names.target_feature,
                is_nightly_build,
            ),
        decreases features@.len() - i,
    {
        proof {
            assert(features@.take(i + 1).drop_last() =~= features@.take(i as int));
            assert(features@.take(i + 1).last() == features@[i as int]);
        }
        let f = features[i];
        if f.in_cfg && (is_nightly_build || !f.requires_nightly) && f.enabled {
            cfg.insert(names.target_feature, Some(f.symbol));
        }
        i += 1;
    }
    assert(features@.take(i as int) =~= features@);
    if support.has_reliable_f16 {
        cfg.insert(names.has_reliable_f16, None);
    }
    if support.has_reliable_f16_math {
        cfg.insert(names.has_reliable_f16_math, None);
    }
    if support.has_reliable_f128 {
        cfg.insert(names.has_reliable_f128, None);
    }
    if support.has_reliable_f128_math {
        cfg.insert(names.has_reliable_f128_math, None);
    }
    if is_crt_static {
        cfg.insert(names.target_feature, Some(names.crt_static));
    }
}

/// A setting that is made is found, and the others are where they were.
pub proof fn law_a_setting_is_found(
    cfg: &mut Cfg,
    name: u32,
    value: Option<u32>,
    other: u32,
    other_value: Option<u32>,
)
    requires
        call_ensures(Cfg::insert, (cfg, name, value), ()),
    ensures
        has_id(final(cfg)@, cfg_id(other, other_value)) <==> has_id(
            old(cfg)@,
            cfg_id(other, other_value),
        ) || (other == name && other_value == value),
{
    law_an_entry_is_found(old(cfg)@, cfg_id(name, value), (), cfg_id(other, other_value));
    law_settings_are_told_apart(name, value, other, other_value);
}

/// A word sets a name and a string sets it to a value; anything else is refused, for the reason that
/// is found first: that the name has several segments, what follows it, and that it is a keyword.
pub proof fn law_an_argument_sets_a_name(
    s: &str,
    item: CfgItem,
    out: Result<(u32, Option<u32>), CfgFault>,
)
    requires
        call_ensures(cfg_of_argument, (s, Some(item)), out),
    ensures
        out is Ok <==> item.segments == 1 && !item.keyword && (item.kind is Word
            || item.kind is Str),
        out is Ok ==> out->Ok_0.0 == item.name && (out->Ok_0.1 is None <==> item.kind is Word) && (
        item.kind is Str ==> out->Ok_0.1 == Some(item.kind->Str_0)),
        item.segments != 1 ==> out->Err_0 == CfgFault::KeyNotIdentifier,
        item.segments == 1 && item.kind is OtherValue ==> out->Err_0 == CfgFault::ValueNotString,
        item.segments == 1 && item.keyword && (item.kind is Word || item.kind is Str)
            ==> out->Err_0 == CfgFault::KeyIsKeyword,
        item.segments == 1 && item.kind is List ==> out->Err_0 == CfgFault::Shape || out->Err_0
            == CfgFault::LostQuotes,
{
}

/// Quotes were lost from an argument that is neither key nor value exactly if it has an equals sign,
/// none has a quote behind it, and no quote ends the argument.
pub proof fn law_lost_quotes_are_noticed(s: &str, out: Result<(u32, Option<u32>), CfgFault>)
    requires
        call_ensures(cfg_of_argument, (s, None), out),
    ensures
        out is Err,
        !s@.contains('=') ==> out->Err_0 == CfgFault::Shape,
        s@.len() > 0 && s@[s@.len() - 1] == '"' ==> out->Err_0 == CfgFault::Shape,
        (exists|i: int| 0 < i < s@.len() && s@[i - 1] == '=' && #[trigger] s@[i] == '"')
            ==> out->Err_0 == CfgFault::Shape,
        s@.contains('=') && s@.last() != '"' && (forall|i: int|
            0 < i < s@.len() && #[trigger] s@[i] == '"' ==> s@[i - 1] != '=') ==> out->Err_0
            == CfgFault::LostQuotes,
{
    if exists|i: int| 0 < i < s@.len() && s@[i - 1] == '=' && #[trigger] s@[i] == '"' {
        let i = choose|i: int| 0 < i < s@.len() && s@[i - 1] == '=' && #[trigger] s@[i] == '"';
        let k = i - 1;
        assert(s@[k] == '=' && s@[k + 1] == '"');
    }
}

/// A message about an argument quotes it, and says what is wrong with it.
pub proof fn law_a_refusal_quotes_the_argument(fault: CfgFault, s: &str, text: String)
    requires
        call_ensures(CfgFault::message, (fault, s), text),
    ensures
        ({
            let head = "invalid `--cfg` argument: `"@ + s@ + "` ("@;
            &&& fault == CfgFault::KeyNotIdentifier ==> text@ == head
                + "argument key must be an identifier"@ + ")"@
            &&& fault == CfgFault::ValueNotString ==> text@ == head
                + "argument value must be a string"@ + ")"@
            &&& fault == CfgFault::KeyIsKeyword ==> text@ == head
                + "malformed `cfg` input, expected a valid identifier"@ + ")"@
            &&& fault == CfgFault::Shape ==> text@ == head + "expected `key` or `key=\"value\"`"@
                + ")"@
            &&& fault == CfgFault::LostQuotes ==> text@ == head
                + "expected `key` or `key=\"value\"`, ensure escaping is appropriate for your shell, try 'key=\"value\"' or key=\\\"value\\\""@
                + ")"@
        }),
{
}

/// Argument `i` makes this setting.
pub open spec fn makes(
    args: Seq<String>,
    parsed: Seq<Option<CfgItem>>,
    i: int,
    name: u32,
    value: Option<u32>,
) -> bool {
    cfg_setting(args[i]@, parsed[i]) == Ok::<(u32, Option<u32>), CfgFault>((name, value))
}

proof fn lemma_settings(
    args: Seq<String>,
    parsed: Seq<Option<CfgItem>>,
    name: u32,
    value: Option<u32>,
)
    requires
        args.len() <= parsed.len(),
    ensures
        match cfg_settings(args, parsed) {
            Ok(settings) => {
                &&& forall|i: int|
                    0 <= i < args.len() ==> cfg_setting(#[trigger] args[i]@, parsed[i]) is Ok
                &&& has_id(settings, cfg_id(name, value)) <==> exists|i: int|
                    0 <= i < args.len() && #[trigger] makes(args, parsed, i, name, value)
            },
            Err(fault) => {
                &&& 0 <= fault.0 < args.len()
                &&& cfg_setting(args[fault.0]@, parsed[fault.0]) == Err::<
                    (u32, Option<u32>),
                    CfgFault,
                >(fault.1)
                &&& forall|i: int|
                    0 <= i < fault.0 ==> cfg_setting(#[trigger] args[i]@, parsed[i]) is Ok
            },
        },
    decreases args.len(),
{
    if args.len() > 0 {
        let shorter = args.drop_last();
        lemma_settings(shorter, parsed, name, value);
        let n = args.len() - 1;
        assert forall|i: int| 0 <= i < n implies #[trigger] makes(args, parsed, i, name, value)
            == makes(shorter, parsed, i, name, value) by {
            assert(args[i] == shorter[i]);
        }
        match cfg_settings(shorter, parsed) {
            Ok(before) => {
                assert forall|i: int| 0 <= i < n implies cfg_setting(
                    #[trigger] args[i]@,
                    parsed[i],
                ) is Ok by {
                    assert(args[i] == shorter[i]);
                }
                match cfg_setting(args[n]@, parsed[n]) {
                    Ok(setting) => {
                        law_an_entry_is_found(
                            before,
                            cfg_id(setting.0, setting.1),
                            (),
                            cfg_id(name, value),
                        );
                        law_settings_are_told_apart(setting.0, setting.1, name, value);
                        if has_id(before, cfg_id(name, value)) {
                            let i = choose|i: int|
                                0 <= i < shorter.len() && #[trigger] makes(
                                    shorter,
                                    parsed,
                                    i,
                                    name,
                                    value,
                                );
                            assert(makes(args, parsed, i, name, value));
                        }
                        if setting == (name, value) {
                            assert(makes(args, parsed, n, name, value));
                        }
                        if exists|i: int|
                            0 <= i < args.len() && #[trigger] makes(args, parsed, i, name, value) {
                            let i = choose|i: int|
                                0 <= i < args.len() && #[trigger] makes(
                                    args,
                                    parsed,
                                    i,
                                    name,
                                    value,
                                );
                            if i < n {
                                assert(makes(shorter, parsed, i, name, value));
                            }
                        }
                    },
                    Err(_) => {},
                }
            },
            Err(fault) => {
                assert(args[fault.0] == shorter[fault.0]);
                assert forall|i: int| 0 <= i < fault.0 implies cfg_setting(
                    #[trigger] args[i]@,
                    parsed[i],
                ) is Ok by {
                    assert(args[i] == shorter[i]);
                }
            },
        }
    }
}

/// The arguments are accepted exactly if each is, and then a setting is made exactly if an argument
/// makes it; else it is the first bad one that is refused.
pub proof fn law_every_argument_counts(
    cfgs: &Vec<String>,
    parsed: &Vec<Option<CfgItem>>,
    out: Result<Cfg, (usize, CfgFault)>,
    name: u32,
    value: Option<u32>,
)
    requires
        parsed@.len() == cfgs@.len(),
        call_ensures(parse_cfg, (cfgs, parsed), out),
    ensures
        out is Ok ==> {
            &&& forall|i: int|
                0 <= i < cfgs@.len() ==> cfg_setting(#[trigger] cfgs@[i]@, parsed@[i]) is Ok
            &&& has_id(out->Ok_0@, cfg_id(name, value)) <==> exists|i: int|
                0 <= i < cfgs@.len() && #[trigger] makes(cfgs@, parsed@, i, name, value)
        },
        out is Err ==> {
            &&& out->Err_0.0 < cfgs@.len()
            &&& cfg_setting(cfgs@[out->Err_0.0 as int]@, parsed@[out->Err_0.0 as int]) == Err::<
                (u32, Option<u32>),
                CfgFault,
            >((out->Err_0).1)
            &&& forall|i: int|
                0 <= i < out->Err_0.0 ==> cfg_setting(#[trigger] cfgs@[i]@, parsed@[i]) is Ok
        },
{
    lemma_settings(cfgs@, parsed@, name, value);
}

/// Feature `i` is one that conditional compilation may see, is enabled, and has this symbol.
pub open spec fn shows(features: Seq<TargetFeature>, i: int, nightly: bool, symbol: u32) -> bool {
    features[i].symbol == symbol && features[i].in_cfg && features[i].enabled && (
    features[i].requires_nightly ==> nightly)
}

proof fn lemma_features(
    cfg: Seq<(u128, ())>,
    features: Seq<TargetFeature>,
    feature_name: u32,
    nightly: bool,
    name: u32,
    value: Option<u32>,
)
    ensures
        has_id(with_features(cfg, features, feature_name, nightly), cfg_id(name, value))
            <==> has_id(cfg, cfg_id(name, value)) || (name == feature_name && value is Some
            && exists|i: int|
            0 <= i < features.len() && #[trigger] shows(features, i, nightly, value->0)),
    decreases features.len(),
{
    if features.len() > 0 {
        let shorter = features.drop_last();
        lemma_features(cfg, shorter, feature_name, nightly, name, value);
        let last = features.last();
        let before = with_features(cfg, shorter, feature_name, nightly);
        law_an_entry_is_found(
            before,
            cfg_id(feature_name, Some(last.symbol)),
            (),
            cfg_id(name, value),
        );
        law_settings_are_told_apart(feature_name, Some(last.symbol), name, value);
        if value is Some {
            let v = value->0;
            assert forall|i: int| 0 <= i < shorter.len() implies #[trigger] shows(
                features,
                i,
                nightly,
                v,
            ) == shows(shorter, i, nightly, v) by {}
            if exists|i: int| 0 <= i < shorter.len() && #[trigger] shows(shorter, i, nightly, v) {
                let i = choose|i: int|
                    0 <= i < shorter.len() && #[trigger] shows(shorter, i, nightly, v);
                assert(shows(features, i, nightly, v));
            }
            if feature_is_set(last, nightly) && last.symbol == v {
                assert(shows(features, features.len() - 1, nightly, v));
            }
            if exists|i: int| 0 <= i < features.len() && #[trigger] shows(
                features,
                i,
                nightly,
                v,
            ) {
                let i = choose|i: int|
                    0 <= i < features.len() && #[trigger] shows(features, i, nightly, v);
                if i < shorter.len() {
                    assert(shows(shorter, i, nightly, v));
                }
            }
        }
    }
}

proof fn lemma_flag(
    cfg: Seq<(u128, ())>,
    applies: bool,
    flag: u32,
    flag_value: Option<u32>,
    name: u32,
    value: Option<u32>,
)
    ensures
        has_id(with_flag(cfg, applies, flag, flag_value), cfg_id(name, value)) <==> has_id(
            cfg,
            cfg_id(name, value),
        ) || (applies && name == flag && value == flag_value),
{
    law_an_entry_is_found(cfg, cfg_id(flag, flag_value), (), cfg_id(name, value));
    law_settings_are_told_apart(flag, flag_value, name, value);
}

/// The settings of a target are exactly those that were made before, one for each feature that may
/// be seen and is enabled, one for each kind of number that it computes with reliably, and the
/// static runtime if it is linked.
pub proof fn law_the_target_makes_its_settings(
    cfg: &mut Cfg,
    features: &Vec<TargetFeature>,
    support: TargetSupport,
    names: TargetNames,
    nightly: bool,
    crt_static: bool,
    name: u32,
    value: Option<u32>,
)
    requires
        call_ensures(
            add_configuration,
            (cfg, features, support, names, nightly, crt_static),
            (),
        ),
    ensures
        has_id(final(cfg)@, cfg_id(name, value)) <==> {
            ||| has_id(old(cfg)@, cfg_id(name, value))
            ||| name == names.target_feature && value is Some && exists|i: int|
                0 <= i < features@.len() && #[trigger] shows(features@, i, nightly, value->0)
            ||| support.has_reliable_f16 && name == names.has_reliable_f16 && value is None
            ||| support.has_reliable_f16_math && name == names.has_reliable_f16_math
                && value is None
            ||| support.has_reliable_f128 && name == names.has_reliable_f128 && value is None
            ||| support.has_reliable_f128_math && name == names.has_reliable_f128_math
                && value is None
            ||| crt_static && name == names.target_feature && value == Some(names.crt_static)
        },
{
    let m0 = with_features(old(cfg)@, features@, names.target_feature, nightly);
    lemma_features(old(cfg)@, features@, names.target_feature, nightly, name, value);
    lemma_flag(m0, support.has_reliable_f16, names.has_reliable_f16, None, name, value);
    let m1 = with_flag(m0, support.has_reliable_f16, names.has_reliable_f16, None);
    lemma_flag(m1, support.has_reliable_f16_math, names.has_reliable_f16_math, None, name, value);
    let m2 = with_flag(m1, support.has_reliable_f16_math, names.has_reliable_f16_math, None);
    lemma_flag(m2, support.has_reliable_f128, names.has_reliable_f128, None, name, value);
    let m3 = with_flag(m2, support.has_reliable_f128, names.has_reliable_f128, None);
    lemma_flag(
        m3,
        support.has_reliable_f128_math,
        names.has_reliable_f128_math,
        None,
        name,
        value,
    );
    let m4 = with_flag(m3, support.has_reliable_f128_math, names.has_reliable_f128_math, None);
    lemma_flag(m4, crt_static, names.target_feature, Some(names.crt_static), name, value);
}

} // verus!
