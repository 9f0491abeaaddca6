//! Language features: which are declared, and whether unstable ones may be used.

use vstd::prelude::*;

use crate::text::same_text;
use crate::text::text_of;
use crate::text::to_chars;

verus! {

/// A feature of the language.
pub struct Feature {
    /// The number of its name.
    pub name: u32,
    /// The version it was added in, or accepted in.
    pub since: String,
    /// The number of its tracking issue.
    pub issue: Option<u32>,
}

/// Whether unstable features may be used.
#[derive(Clone, Copy, PartialEq, Eq, Structural, Debug)]
pub enum UnstableFeatures {
    /// No, as on a stable channel.
    Disallow,
    /// Yes, as on the nightly channel.
    Allow,
    /// Yes, and errors about it are bypassed, to build the compiler itself.
    Cheat,
}

/// The place of the first comma, or the length.
pub open spec fn comma_at(s: Seq<char>) -> int
    decreases s.len(),
{
    if s.len() == 0 || s[0] == ',' {
        0
    } else {
        1 + comma_at(s.skip(1))
    }
}

proof fn lemma_comma_at(s: Seq<char>)
    ensures
        0 <= comma_at(s) <= s.len(),
    decreases s.len(),
{
    if s.len() > 0 && s[0] != ',' {
        lemma_comma_at(s.skip(1));
    }
}

/// `name` is one of the names in a list with commas between.
pub open spec fn is_listed(list: Seq<char>, name: Seq<char>) -> bool
    decreases list.len(),
{
    let at = comma_at(list);
    if 0 <= at < list.len() {
        list.take(at) == name || is_listed(list.skip(at + 1), name)
    } else {
        list == name
    }
}

fn lists(list: &str, name: &str) -> (yes: bool)
    ensures
        yes == is_listed(list@, name@),
{
    let chars = to_chars(list);
    let mut start: usize = 0;
    assert(chars@.skip(0) =~= list@);
    loop
        invariant
            start <= chars@.len(),
            is_listed(list@, name@) == is_listed(chars@.skip(start as int), name@),
        decreases chars@.len() - start,
    {
        let ghost rest = chars@.skip(start as int);
        let mut end: usize = start;
        assert(rest.skip(0) =~= rest);
        while end < chars.len() && chars[end] != ','
            invariant
                start <= end <= chars@.len(),
                rest == chars@.skip(start as int),
                comma_at(rest) == (end - start) + comma_at(rest.skip(end - start)),
            decreases chars@.len() - end,
        {
            assert(rest.skip(end - start)[0] == chars@[end as int]);
            assert(rest.skip(end - start).skip(1) =~= rest.skip(end + 1 - start));
            end += 1;
        }
        proof {
            if end < chars@.len() {
                assert(rest.skip(end - start)[0] == chars@[end as int]);
            }
            assert(comma_at(rest) == end - start);
        }
        let part = text_of(&chars, start, end);
        let same = same_text(part.as_str(), name);
        assert(part@ =~= rest.take(end - start));
        if end == chars.len() {
            assert(rest.take(end - start) =~= rest);
            return same;
        }
        if same {
            return true;
        }
        assert(rest.skip(end - start + 1) =~= chars@.skip(end + 1));
        start = end + 1;
    }
}

impl UnstableFeatures {
    /// Whether unstable features may be used: the environment decides, and then the channel.
    ///
    /// `disable` is whether the compiler was built for a stable channel. A setting of `1`, or one
    /// that lists the crate, allows them; `-1` disallows them.
    pub fn from_environment_value(
        krate: Option<&str>,
        setting: Option<&str>,
        disable: bool,
    ) -> (features: UnstableFeatures)
        ensures
            features == ({
                let channel = if disable {
                    UnstableFeatures::Disallow
                } else {
                    UnstableFeatures::Allow
                };
                match setting {
                    Some(val) => if val@ == "1"@ || (krate is Some && is_listed(
                        val@,
                        krate->0@,
                    )) {
                        UnstableFeatures::Cheat
                    } else if val@ == "-1"@ {
                        UnstableFeatures::Disallow
                    } else {
                        channel
                    },
                    None => channel,
                }
            }),
    {
        match setting {
            Some(val) => {
                if same_text(val, "1") {
                    return UnstableFeatures::Cheat;
                }
                match krate {
                    Some(name) => {
                        if lists(val, name) {
                            return UnstableFeatures::Cheat;
                        }
                    },
                    None => {},
                }
                if same_text(val, "-1") {
                    return UnstableFeatures::Disallow;
                }
            },
            None => {},
        }
        if disable {
            UnstableFeatures::Disallow
        } else {
            UnstableFeatures::Allow
        }
    }

    pub fn is_nightly_build(&self) -> (yes: bool)
        ensures
            yes == (*self != UnstableFeatures::Disallow),
    {
        match *self {
            UnstableFeatures::Allow => true,
            UnstableFeatures::Cheat => true,
            UnstableFeatures::Disallow => false,
        }
    }
}

/// The place of the first feature with that name.
pub open spec fn feature_at(features: Seq<Feature>, name: u32) -> Option<int>
    decreases features.len(),
{
    if features.len() == 0 {
        None
    } else {
        match feature_at(features.drop_last(), name) {
            Some(i) => Some(i),
            None => if features.last().name == name {
                Some(features.len() - 1)
            } else {
                None
            },
        }
    }
}

proof fn lemma_feature_at(features: Seq<Feature>, name: u32, n: int)
    requires
        0 <= n <= features.len(),
        feature_at(features.take(n), name) is Some,
    ensures
        feature_at(features, name) == feature_at(features.take(n), name),
    decreases features.len() - n,
{
    if n < features.len() {
        assert(features.take(n + 1).drop_last() =~= features.take(n));
        lemma_feature_at(features, name, n + 1);
    } else {
        assert(features.take(n) =~= features);
    }
}

fn find_feature(features: &Vec<Feature>, name: u32) -> (at: Option<usize>)
    ensures
        match at {
            Some(i) => feature_at(features@, name) == Some(i as int) && i < features@.len(),
            None => feature_at(features@, name) is None,
        },
{
    let mut i: usize = 0;
    assert(features@.take(0) =~= Seq::<Feature>::empty());
    while i < features.len()
        invariant
            i <= features@.len(),
            feature_at(features@.take(i as int), name) is None,
        decreases features@.len() - i,
    {
        proof {
            assert(features@.take(i + 1).drop_last() =~= features@.take(i as int));
            assert(features@.take(i + 1).last() == features@[i as int]);
        }
        if features[i].name == name {
            proof {
                lemma_feature_at(features@, name, i + 1);
            }
            return Some(i);
        }
        i += 1;
    }
    assert(features@.take(i as int) =~= features@);
    None
}

/// The lists of language features.
pub struct LangFeatures {
    pub unstable: Vec<Feature>,
    pub accepted: Vec<Feature>,
    pub removed: Vec<Feature>,
}

/// The feature is declared.
pub open spec fn is_declared(features: LangFeatures, name: u32) -> bool {
    feature_at(features.unstable@, name) is Some || feature_at(features.accepted@, name) is Some
        || feature_at(features.removed@, name) is Some
}

/// The tracking issue of a declared feature: unstable features are looked up first, then accepted
/// ones, then removed ones.
pub open spec fn lang_issue(features: LangFeatures, name: u32) -> Option<u32> {
    match feature_at(features.unstable@, name) {
        Some(i) => features.unstable@[i].issue,
        None => match feature_at(features.accepted@, name) {
            Some(i) => features.accepted@[i].issue,
            None => match feature_at(features.removed@, name) {
                Some(i) => features.removed@[i].issue,
                None => None,
            },
        },
    }
}

fn find_lang_feature_issue(features: &LangFeatures, name: u32) -> (issue: Option<u32>)
    requires
        is_declared(*features, name),
    ensures
        issue == lang_issue(*features, name),
{
    match find_feature(&features.unstable, name) {
        Some(i) => {
            return features.unstable[i].issue;
        },
        None => {},
    }
    match find_feature(&features.accepted, name) {
        Some(i) => {
            return features.accepted[i].issue;
        },
        None => {},
    }
    match find_feature(&features.removed, name) {
        Some(i) => features.removed[i].issue,
        None => None,
    }
}

/// An issue number, where zero stands for none.
pub fn to_nonzero(n: Option<u32>) -> (issue: Option<u32>)
    ensures
        issue == (match n {
            Some(n) => if n == 0 {
                None
            } else {
                Some(n)
            },
            None => None,
        }),
{
    match n {
        None => None,
        Some(n) => if n == 0 {
            None
        } else {
            Some(n)
        },
    }
}

/// Where the tracking issue of a feature is found.
#[derive(Clone, Copy, PartialEq, Eq, Structural, Debug)]
pub enum GateIssue {
    /// In the lists of language features.
    Language,
    /// It is a library feature, with this issue.
    Library(Option<u32>),
}

/// The tracking issue of a feature.
pub fn find_feature_issue(features: &LangFeatures, feature: u32, issue: GateIssue) -> (number:
    Option<u32>)
    requires
        issue == GateIssue::Language ==> is_declared(*features, feature),
    ensures
        number == (match issue {
            GateIssue::Language => lang_issue(*features, feature),
            GateIssue::Library(lib) => lib,
        }),
{
    match issue {
        GateIssue::Language => find_lang_feature_issue(features, feature),
        GateIssue::Library(lib) => lib,
    }
}

proof fn lemma_first_comma(s: Seq<char>)
    ensures
        0 <= comma_at(s) <= s.len(),
        forall|i: int| 0 <= i < comma_at(s) ==> s[i] != ',',
        comma_at(s) < s.len() ==> s[comma_at(s)] == ',',
    decreases s.len(),
{
    if s.len() > 0 && s[0] != ',' {
        let rest = s.skip(1);
        lemma_first_comma(rest);
        assert forall|i: int| 0 <= i < comma_at(s) implies s[i] != ',' by {
            if i > 0 {
                assert(s[i] == rest[i - 1]);
            }
        }
    }
}

/// A list without a comma has one name, itself; one that starts with a name and a comma has that
/// name and those behind it.
pub proof fn law_commas_end_names(first: Seq<char>, rest: Seq<char>, name: Seq<char>)
    requires
        !first.contains(','),
    ensures
        is_listed(first, name) <==> name == first,
        is_listed(first.push(',') + rest, name) <==> name == first || is_listed(rest, name),
{
    lemma_first_comma(first);
    let c = comma_at(first);
    if c < first.len() {
        assert(first.contains(first[c]));
    }
    let list = first.push(',') + rest;
    lemma_first_comma(list);
    let at = comma_at(list);
    if at < first.len() {
        assert(list[at] == first[at]);
        assert(first.contains(first[at]));
    }
    assert(list[first.len() as int] == ',');
    assert(at == first.len());
    assert(list.take(at) =~= first);
    assert(list.skip(at + 1) =~= rest);
}

/// The environment decides before the channel does: a one, or the crate's name, allows everything,
/// a minus one nothing, and without a setting, or with another, it is up to the channel.
pub proof fn law_the_environment_comes_before_the_channel(
    krate: Option<&str>,
    setting: Option<&str>,
    disable: bool,
    features: UnstableFeatures,
    nightly: bool,
)
    requires
        call_ensures(
            UnstableFeatures::from_environment_value,
            (krate, setting, disable),
            features,
        ),
        call_ensures(UnstableFeatures::is_nightly_build, (&features,), nightly),
    ensures
        setting is None ==> (nightly <==> !disable),
        setting is None ==> features != UnstableFeatures::Cheat,
        setting is Some && setting->0@ == seq!['1'] ==> features == UnstableFeatures::Cheat,
        setting is Some && krate is Some && is_listed(setting->0@, krate->0@) ==> features
            == UnstableFeatures::Cheat,
        setting is Some && setting->0@ == seq!['-', '1'] && (krate is None || !is_listed(
            setting->0@,
            krate->0@,
        )) ==> features == UnstableFeatures::Disallow,
        setting is Some && setting->0@ != seq!['1'] && setting->0@ != seq!['-', '1'] && (
        krate is None || !is_listed(setting->0@, krate->0@)) ==> features
            != UnstableFeatures::Cheat && (nightly <==> !disable),
        features == UnstableFeatures::Cheat ==> nightly,
{
    reveal_strlit("1");
    reveal_strlit("-1");
    assert("1"@ =~= seq!['1']);
    assert("-1"@ =~= seq!['-', '1']);
    if setting is Some && setting->0@ == seq!['-', '1'] {
        assert(setting->0@.len() == 2);
    }
}

/// A feature is found exactly if it is in the list, and then the first of its name.
pub proof fn law_the_first_of_a_name_is_found(features: Seq<Feature>, name: u32)
    ensures
        feature_at(features, name) is Some ==> {
            let at = feature_at(features, name)->0;
            &&& 0 <= at < features.len()
            &&& features[at].name == name
            &&& forall|i: int| 0 <= i < at ==> (#[trigger] features[i]).name != name
        },
        feature_at(features, name) is None ==> forall|i: int|
            0 <= i < features.len() ==> (#[trigger] features[i]).name != name,
    decreases features.len(),
{
    if features.len() > 0 {
        let shorter = features.drop_last();
        law_the_first_of_a_name_is_found(shorter, name);
        assert(forall|i: int| 0 <= i < shorter.len() ==> shorter[i] == #[trigger] features[i]);
    }
}

/// The issue of a feature: that of an unstable one of the name, else of an accepted one, else of a
/// removed one; a library feature brings its own.
pub proof fn law_unstable_features_are_looked_up_first(
    features: &LangFeatures,
    name: u32,
    i: int,
    number: Option<u32>,
)
    requires
        call_ensures(find_feature_issue, (features, name, GateIssue::Language), number),
    ensures
        feature_at(features.unstable@, name) == Some(i) ==> number == features.unstable@[i].issue,
        feature_at(features.unstable@, name) is None && feature_at(features.accepted@, name)
            == Some(i) ==> number == features.accepted@[i].issue,
        feature_at(features.unstable@, name) is None && feature_at(features.accepted@, name) is None
            && feature_at(features.removed@, name) == Some(i) ==> number
            == features.removed@[i].issue,
{
}

/// A zero is no issue, and every other number is one.
pub proof fn law_zero_is_no_issue(n: Option<u32>, issue: Option<u32>)
    requires
        call_ensures(to_nonzero, (n,), issue),
    ensures
        issue is Some <==> n is Some && n->0 != 0,
        issue is Some ==> issue == n,
{
}

} // verus!
