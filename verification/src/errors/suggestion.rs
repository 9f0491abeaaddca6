//! Suggested changes to the code, and small pieces of the wording of diagnostics.

use vstd::prelude::*;
use vstd::string::StringExecFns;

use crate::error_messages::message::DiagMessage;
use crate::error_messages::span::Span;
use crate::text::joined;
use crate::text::text_of;
use crate::text::to_chars;
use crate::text::trim;
use crate::text::trimmed;

verus! {

#[derive(Clone, Copy, PartialEq, Eq, Structural, Debug)]
pub enum SuggestionStyle {
    /// Hide the suggested code when the suggestion is shown inline.
    HideCodeInline,
    /// Always hide the suggested code, and show the message.
    HideCodeAlways,
    /// Do not show the suggestion; it is only meant for tools.
    CompletelyHidden,
    /// Show the suggested code, unless the suggestion is inline and the code is empty.
    ShowCode,
    /// Always show the suggested code on its own.
    ShowAlways,
}

impl SuggestionStyle {
    pub fn hide_inline(&self) -> (yes: bool)
        ensures
            yes == (*self != SuggestionStyle::ShowCode),
    {
        match self {
            SuggestionStyle::ShowCode => false,
            _ => true,
        }
    }
}

/// Whether a tool can apply a suggestion as it is.
#[derive(Clone, Copy, PartialEq, Eq, Structural, Debug)]
pub enum Applicability {
    MachineApplicable,
    MaybeIncorrect,
    HasPlaceholders,
    Unspecified,
}

/// One replacement of a span by text.
pub struct SubstitutionPart {
    pub span: Span,
    pub snippet: String,
}

/// Replacements that belong together.
pub struct Substitution {
    pub parts: Vec<SubstitutionPart>,
}

/// A suggested change, with its alternatives.
pub struct CodeSuggestion {
    pub substitutions: Vec<Substitution>,
    pub msg: DiagMessage,
    pub style: SuggestionStyle,
    pub applicability: Applicability,
}

/// The suggestions of a diagnostic.
pub enum Suggestions {
    /// More can be added.
    Enabled(Vec<CodeSuggestion>),
    /// None can be added or removed.
    Sealed(Vec<CodeSuggestion>),
    /// There are none, and none can be added.
    Disabled,
}

impl Default for Suggestions {
    fn default() -> (s: Self)
        ensures
            s matches Suggestions::Enabled(list) && list@.len() == 0,
    {
        Suggestions::Enabled(Vec::new())
    }
}

impl Suggestions {
    /// The suggestions there are.
    pub open spec fn listed(&self) -> Seq<CodeSuggestion> {
        match self {
            Suggestions::Enabled(list) => list@,
            Suggestions::Sealed(list) => list@,
            Suggestions::Disabled => Seq::empty(),
        }
    }

    pub fn unwrap_tag(self) -> (list: Vec<CodeSuggestion>)
        ensures
            list@ == self.listed(),
    {
        match self {
            Suggestions::Enabled(list) => list,
            Suggestions::Sealed(list) => list,
            Suggestions::Disabled => Vec::new(),
        }
    }

    pub fn len(&self) -> (n: usize)
        ensures
            n == self.listed().len(),
    {
        match self {
            Suggestions::Enabled(list) => list.len(),
            Suggestions::Sealed(list) => list.len(),
            Suggestions::Disabled => 0,
        }
    }
}

/// A replacement without the parts that it does not change.
pub struct TrimmedSubstitutionPart {
    pub original_span: Span,
    pub span: Span,
    pub snippet: String,
}

/// `prefix` and then something and then the rest of `original` make up `suggestion`: the
/// suggestion adds to the original in one place.
pub open spec fn adds_in_one_place(
    original: Seq<char>,
    suggestion: Seq<char>,
    prefix: int,
) -> bool {
    let rest = original.skip(prefix);
    &&& 0 <= prefix <= original.len()
    &&& prefix + rest.len() <= suggestion.len()
    &&& suggestion.take(prefix) == original.take(prefix)
    &&& suggestion.skip(suggestion.len() - rest.len()) == rest
}

/// How many characters the two have in common at the front.
pub open spec fn common_prefix(a: Seq<char>, b: Seq<char>) -> nat
    decreases a.len(),
{
    if a.len() == 0 || b.len() == 0 || a[0] != b[0] {
        0
    } else {
        1 + common_prefix(a.drop_first(), b.drop_first())
    }
}

pub proof fn lemma_common_prefix(a: Seq<char>, b: Seq<char>)
    ensures
        common_prefix(a, b) <= a.len(),
        common_prefix(a, b) <= b.len(),
        a.take(common_prefix(a, b) as int) == b.take(common_prefix(a, b) as int),
    decreases a.len(),
{
    if a.len() > 0 && b.len() > 0 && a[0] == b[0] {
        lemma_common_prefix(a.drop_first(), b.drop_first());
        let n = common_prefix(a.drop_first(), b.drop_first()) as int;
        assert(a.take(n + 1) =~= seq![a[0]] + a.drop_first().take(n));
        assert(b.take(n + 1) =~= seq![b[0]] + b.drop_first().take(n));
    } else {
        assert(a.take(0) =~= b.take(0));
    }
}

/// How many bytes the characters take.
pub open spec fn byte_len(s: Seq<char>) -> usize {
    vstd::utf8::encode_utf8(s).len() as usize
}

/// If the suggestion is the original with something put in, right after the longest prefix that
/// they share: the length of that prefix, what was put in, and the length of what follows it, the
/// lengths in bytes.
pub fn as_substr(original: &str, suggestion: &str) -> (put_in: Option<(usize, String, usize)>)
    ensures
        put_in is Some <==> adds_in_one_place(
            original@,
            suggestion@,
            common_prefix(original@, suggestion@) as int,
        ),
        put_in matches Some((prefix, text, suffix)) ==> {
            let shared = common_prefix(original@, suggestion@) as int;
            &&& prefix == byte_len(original@.take(shared))
            &&& suffix == byte_len(original@.skip(shared))
            &&& text@ == suggestion@.subrange(
                shared,
                suggestion@.len() - (original@.len() - shared),
            )
        },
{
    let a = to_chars(original);
    let b = to_chars(suggestion);
    let mut prefix: usize = 0;
    assert(a@.skip(0) =~= a@ && b@.skip(0) =~= b@);
    while prefix < a.len() && prefix < b.len() && a[prefix] == b[prefix]
        invariant
            prefix <= a@.len(),
            prefix <= b@.len(),
            common_prefix(a@, b@) == prefix + common_prefix(
                a@.skip(prefix as int),
                b@.skip(prefix as int),
            ),
        decreases a@.len() - prefix,
    {
        assert(a@.skip(prefix as int).drop_first() =~= a@.skip(prefix + 1));
        assert(b@.skip(prefix as int).drop_first() =~= b@.skip(prefix + 1));
        prefix += 1;
    }
    assert(prefix == common_prefix(a@, b@));
    proof {
        lemma_common_prefix(a@, b@);
    }
    let suffix: usize = a.len() - prefix;
    if b.len() - prefix < suffix {
        return None;
    }
    let from: usize = b.len() - suffix;
    let mut i: usize = 0;
    let ghost rest = a@.skip(prefix as int);
    while i < suffix
        invariant
            i <= suffix,
            suffix == rest.len(),
            rest == a@.skip(prefix as int),
            from == b@.len() - suffix,
            prefix + suffix == a@.len(),
            prefix + suffix <= b@.len(),
            a@ == original@,
            b@ == suggestion@,
            prefix == common_prefix(a@, b@),
            forall|k: int| 0 <= k < i ==> b@[from + k] == #[trigger] rest[k],
        decreases suffix - i,
    {
        assert(prefix + i < a.len() && from + i < b.len());
        if a[prefix + i] != b[from + i] {
            proof {
                assert(b@.skip(from as int)[i as int] == b@[from + i]);
                assert(rest[i as int] == a@[prefix + i]);
            }
            return None;
        }
        i += 1;
    }
    assert(b@.skip(from as int) =~= rest);
    assert(a@.subrange(0, prefix as int) =~= a@.take(prefix as int));
    assert(a@.subrange(prefix as int, a@.len() as int) =~= a@.skip(prefix as int));
    let front = text_of(&a, 0, prefix);
    let back = text_of(&a, prefix, a.len());
    Some((front.as_str().len(), text_of(&b, prefix, from), back.as_str().len()))
}

impl TrimmedSubstitutionPart {
    /// The source under the span, if it can be read, is more than whitespace; if it cannot, the
    /// span is not empty.
    pub open spec fn replaces_something(&self, source: Option<Seq<char>>) -> bool {
        match source {
            Some(text) => trimmed(text).len() > 0,
            None => self.span.lo != self.span.hi,
        }
    }

    /// `source` is the text under the span, if it can be read.
    pub fn replaces_meaningful_content(&self, source: &Option<String>) -> (yes: bool)
        ensures
            yes == self.replaces_something(text_view(source)),
    {
        match source {
            Some(text) => !trim(text.as_str()).as_str().is_empty(),
            None => self.span.lo != self.span.hi,
        }
    }

    pub fn is_addition(&self, source: &Option<String>) -> (yes: bool)
        ensures
            yes == (self.snippet@.len() > 0 && !self.replaces_something(text_view(source))),
    {
        !self.snippet.as_str().is_empty() && !self.replaces_meaningful_content(source)
    }

    pub fn is_deletion(&self, source: &Option<String>) -> (yes: bool)
        ensures
            yes == (trimmed(self.snippet@).len() == 0 && self.replaces_something(
                text_view(source),
            )),
    {
        trim(self.snippet.as_str()).as_str().is_empty() && self.replaces_meaningful_content(source)
    }

    pub fn is_replacement(&self, source: &Option<String>) -> (yes: bool)
        ensures
            yes == (self.snippet@.len() > 0 && self.replaces_something(text_view(source))),
    {
        !self.snippet.as_str().is_empty() && self.replaces_meaningful_content(source)
    }

    /// Whether this replaces source by text that is not the source with something put in.
    pub fn is_destructive_replacement(&self, source: &Option<String>) -> (yes: bool)
        ensures
            yes == (self.snippet@.len() > 0 && self.replaces_something(text_view(source)) && !(
            source matches Some(text) && adds_in_one_place(
                trimmed(text@),
                trimmed(self.snippet@),
                common_prefix(trimmed(text@), trimmed(self.snippet@)) as int,
            ))),
    {
        if !self.is_replacement(source) {
            return false;
        }
        match source {
            Some(text) => {
                let original = trim(text.as_str());
                let suggestion = trim(self.snippet.as_str());
                match as_substr(original.as_str(), suggestion.as_str()) {
                    Some(_) => false,
                    None => true,
                }
            },
            None => true,
        }
    }
}

pub open spec fn text_view(source: &Option<String>) -> Option<Seq<char>> {
    match source {
        Some(text) => Some(text@),
        None => None,
    }
}

/// What a suggestion keeps of the original: everything, if it only adds to it.
pub proof fn law_adding_loses_nothing(original: Seq<char>, suggestion: Seq<char>, prefix: int)
    requires
        adds_in_one_place(original, suggestion, prefix),
    ensures
        suggestion == original.take(prefix) + suggestion.subrange(
            prefix,
            suggestion.len() - (original.len() - prefix),
        ) + original.skip(prefix),
{
    let rest = original.skip(prefix);
    let from = suggestion.len() - rest.len();
    assert(suggestion =~= suggestion.take(prefix) + suggestion.subrange(prefix, from)
        + suggestion.skip(from));
}

/// The letters before which an article is `an`, and `&`.
pub open spec fn takes_an(c: char) -> bool {
    c == 'a' || c == 'e' || c == 'i' || c == 'o' || c == 'u' || c == 'A' || c == 'E' || c == 'I'
        || c == 'O' || c == 'U' || c == '&'
}

/// The character that decides the article of `s`: the first, or the second behind a backtick.
pub open spec fn deciding_char(s: Seq<char>) -> Option<char> {
    if s.len() == 0 {
        None
    } else if s[0] != '`' {
        Some(s[0])
    } else if s.len() == 1 {
        None
    } else {
        Some(s[1])
    }
}

/// `an` if the given text starts with a vowel, and `a` otherwise.
pub fn a_or_an(s: &str) -> (article: &'static str)
    ensures
        article@ == (if deciding_char(s@) matches Some(c) && takes_an(c) {
            "an"@
        } else {
            "a"@
        }),
{
    let chars = to_chars(s);
    if chars.len() == 0 {
        return "a";
    }
    let mut c = chars[0];
    if c == '`' {
        if chars.len() == 1 {
            return "a";
        }
        c = chars[1];
    }
    if c == 'a' || c == 'e' || c == 'i' || c == 'o' || c == 'u' || c == 'A' || c == 'E' || c == 'I'
        || c == 'O' || c == 'U' || c == '&' {
        "an"
    } else {
        "a"
    }
}

pub struct ExpectedLifetimeParameter {
    pub span: Span,
    pub count: usize,
}

pub struct IndicateAnonymousLifetime {
    pub span: Span,
    pub count: usize,
    pub suggestion: String,
}

pub struct ElidedLifetimeInPathSubdiag {
    pub expected: ExpectedLifetimeParameter,
    pub indicate: Option<IndicateAnonymousLifetime>,
}

/// `n` anonymous lifetimes, in a list.
pub open spec fn anonymous_lifetimes(n: nat) -> Seq<char> {
    joined(Seq::new(n, |i: int| "'_"@), ", "@)
}

/// What is said of a path that lacks `n` lifetimes: that they are expected, and, where the source
/// is there to be changed (`accessible`), what to put in.
pub fn elided_lifetime_in_path_suggestion(
    accessible: bool,
    n: usize,
    path_span: Span,
    incl_angl_brckt: bool,
    insertion_span: Span,
) -> (sub: ElidedLifetimeInPathSubdiag)
    ensures
        sub.expected.span == path_span,
        sub.expected.count == n,
        sub.indicate is Some == accessible,
        sub.indicate matches Some(indicate) ==> {
            &&& indicate.span == (Span { lo: insertion_span.hi, ..insertion_span })
            &&& indicate.count == n
            &&& indicate.suggestion@ == (if incl_angl_brckt {
                seq!['<'] + anonymous_lifetimes(n as nat) + seq!['>']
            } else {
                anonymous_lifetimes(n as nat) + ", "@
            })
        },
{
    let expected = ExpectedLifetimeParameter { span: path_span, count: n };
    if !accessible {
        return ElidedLifetimeInPathSubdiag { expected, indicate: None };
    }
    let mut suggestion = String::new();
    if incl_angl_brckt {
        suggestion.push('<');
    }
    let ghost front = suggestion@;
    let mut i: usize = 0;
    let ghost all = Seq::new(n as nat, |i: int| "'_"@);
    assert(all.take(0) =~= Seq::<Seq<char>>::empty());
    while i < n
        invariant
            i <= n,
            all == Seq::new(n as nat, |i: int| "'_"@),
            suggestion@ == front + joined(all.take(i as int), ", "@),
        decreases n - i,
    {
        assert(all.take(i + 1).drop_last() =~= all.take(i as int));
        if i > 0 {
            suggestion.append(", ");
        }
        suggestion.append("'_");
        i += 1;
        assert(suggestion@ =~= front + joined(all.take(i as int), ", "@));
    }
    assert(all.take(i as int) =~= all);
    if incl_angl_brckt {
        suggestion.push('>');
        assert(suggestion@ =~= seq!['<'] + anonymous_lifetimes(n as nat) + seq!['>']);
    } else {
        suggestion.append(", ");
        assert(suggestion@ =~= anonymous_lifetimes(n as nat) + ", "@);
    }
    let indicate = IndicateAnonymousLifetime {
        span: insertion_span.shrink_to_hi(),
        count: n,
        suggestion,
    };
    ElidedLifetimeInPathSubdiag { expected, indicate: Some(indicate) }
}

/// Two texts share their common prefix and no more: where both go on, they go on differently.
pub proof fn law_a_common_prefix_is_the_longest(a: Seq<char>, b: Seq<char>, i: int)
    ensures
        common_prefix(a, b) <= a.len() && common_prefix(a, b) <= b.len(),
        0 <= i < common_prefix(a, b) ==> a[i] == b[i],
        common_prefix(a, b) < a.len() && common_prefix(a, b) < b.len() ==> a[common_prefix(
            a,
            b,
        ) as int] != b[common_prefix(a, b) as int],
    decreases a.len(),
{
    if a.len() > 0 && b.len() > 0 && a[0] == b[0] {
        law_a_common_prefix_is_the_longest(a.drop_first(), b.drop_first(), i - 1);
    }
}

/// A part of a suggestion that puts something in is an addition where nothing was and a replacement
/// where something was; one that puts in nothing but blanks where something was is a deletion.
pub proof fn law_a_part_adds_replaces_or_deletes(
    part: &TrimmedSubstitutionPart,
    source: &Option<String>,
    addition: bool,
    replacement: bool,
    deletion: bool,
    destructive: bool,
)
    requires
        call_ensures(TrimmedSubstitutionPart::is_addition, (part, source), addition),
        call_ensures(TrimmedSubstitutionPart::is_replacement, (part, source), replacement),
        call_ensures(TrimmedSubstitutionPart::is_deletion, (part, source), deletion),
        call_ensures(
            TrimmedSubstitutionPart::is_destructive_replacement,
            (part, source),
            destructive,
        ),
    ensures
        ({
            let was = if *source is Some {
                trimmed(source->0@).len() > 0
            } else {
                part.span.lo != part.span.hi
            };
            &&& addition <==> part.snippet@.len() > 0 && !was
            &&& replacement <==> part.snippet@.len() > 0 && was
            &&& deletion <==> trimmed(part.snippet@).len() == 0 && was
            &&& destructive ==> replacement
            &&& replacement && *source is None ==> destructive
        }),
{
}

/// A suggestion is shown inline only if its style is to show the code.
pub proof fn law_only_shown_code_is_inline(style: SuggestionStyle, hidden: bool)
    requires
        call_ensures(SuggestionStyle::hide_inline, (&style,), hidden),
    ensures
        style == SuggestionStyle::ShowCode <==> !hidden,
{
}

} // verus!
