//! Text as a sequence of characters: building it, cutting it up, and writing numbers.

use vstd::prelude::*;
use vstd::string::StringExecFns;

use crate::base_n::base_digits;
use crate::base_n::ToBaseN;

verus! {

/// `String::push` appends the given character to the end of the string.
pub assume_specification[ String::push ](s: &mut String, c: char)
    ensures
        final(s)@ == old(s)@.push(c),
;

/// The characters of `s`.
pub fn to_chars(s: &str) -> (out: Vec<char>)
    ensures
        out@ == s@,
{
    let mut out: Vec<char> = Vec::new();
    for c in it: s.chars()
        invariant
            out@ == it.seq().take(it.index()),
            it.seq() == s@,
    {
        out.push(c);
        assert(out@ =~= it.seq().take(it.index() + 1));
    }
    assert(out@ =~= s@);
    out
}

/// Appends the characters `chars[lo..hi]` to `out`.
pub fn push_chars(out: &mut String, chars: &Vec<char>, lo: usize, hi: usize)
    requires
        lo <= hi <= chars@.len(),
    ensures
        final(out)@ == old(out)@ + chars@.subrange(lo as int, hi as int),
{
    let mut i: usize = lo;
    assert(out@ =~= old(out)@ + chars@.subrange(lo as int, lo as int));
    while i < hi
        invariant
            lo <= i <= hi <= chars@.len(),
            out@ == old(out)@ + chars@.subrange(lo as int, i as int),
        decreases hi - i,
    {
        out.push(chars[i]);
        i += 1;
        assert(out@ =~= old(out)@ + chars@.subrange(lo as int, i as int));
    }
}

/// The text `chars[lo..hi]`.
pub fn text_of(chars: &Vec<char>, lo: usize, hi: usize) -> (s: String)
    requires
        lo <= hi <= chars@.len(),
    ensures
        s@ == chars@.subrange(lo as int, hi as int),
{
    let mut s = String::new();
    push_chars(&mut s, chars, lo, hi);
    assert(s@ =~= chars@.subrange(lo as int, hi as int));
    s
}

/// `count` copies of `c`.
pub open spec fn repeated(c: char, count: nat) -> Seq<char> {
    Seq::new(count, |i: int| c)
}

/// Appends `count` copies of `c` to `out`.
pub fn push_repeated(out: &mut String, c: char, count: usize)
    ensures
        final(out)@ == old(out)@ + repeated(c, count as nat),
{
    let mut i: usize = 0;
    while i < count
        invariant
            i <= count,
            out@ == old(out)@ + repeated(c, i as nat),
        decreases count - i,
    {
        out.push(c);
        i += 1;
        assert(out@ == old(out)@ + repeated(c, i as nat));
    }
}

/// `text` with spaces in front, so that it is at least `width` long.
pub open spec fn right_aligned(text: Seq<char>, width: nat) -> Seq<char> {
    if text.len() < width {
        repeated(' ', (width - text.len()) as nat) + text
    } else {
        text
    }
}

/// `text` with spaces behind, so that it is at least `width` long.
pub open spec fn left_aligned(text: Seq<char>, width: nat) -> Seq<char> {
    if text.len() < width {
        text + repeated(' ', (width - text.len()) as nat)
    } else {
        text
    }
}

/// Appends `text`, with spaces in front so that it is at least `width` long.
pub fn push_right_aligned(out: &mut String, text: &str, width: usize)
    ensures
        final(out)@ == old(out)@ + right_aligned(text@, width as nat),
{
    let len: usize = to_chars(text).len();
    if len < width {
        push_repeated(out, ' ', width - len);
    }
    out.append(text);
    assert(out@ =~= old(out)@ + right_aligned(text@, width as nat));
}

/// Appends `text`, with spaces behind so that it is at least `width` long.
pub fn push_left_aligned(out: &mut String, text: &str, width: usize)
    ensures
        final(out)@ == old(out)@ + left_aligned(text@, width as nat),
{
    let len: usize = to_chars(text).len();
    out.append(text);
    if len < width {
        push_repeated(out, ' ', width - len);
    }
    assert(out@ =~= old(out)@ + left_aligned(text@, width as nat));
}

/// `n` in decimal digits.
pub open spec fn decimal(n: nat) -> Seq<char> {
    base_digits(n, 10)
}

/// `n` in decimal digits, with a minus sign in front of a negative number.
pub open spec fn signed_decimal(n: int) -> Seq<char> {
    if n < 0 {
        seq!['-'] + decimal((-n) as nat)
    } else {
        decimal(n as nat)
    }
}

/// `n` in decimal digits.
pub fn decimal_text(n: u128) -> (s: String)
    ensures
        s@ == decimal(n as nat),
{
    n.to_base(10).to_text()
}

/// `n` in decimal digits, with a minus sign in front of a negative number.
pub fn signed_decimal_text(n: i128) -> (s: String)
    ensures
        s@ == signed_decimal(n as int),
{
    if n < 0 {
        let mut s = String::new();
        s.push('-');
        let size: u128 = if n == i128::MIN {
            0x8000_0000_0000_0000_0000_0000_0000_0000
        } else {
            (-n) as u128
        };
        s.append(decimal_text(size).as_str());
        assert(s@ =~= seq!['-'] + decimal((-n) as nat));
        s
    } else {
        decimal_text(n as u128)
    }
}

/// The characters that separate words.
pub open spec fn whitespace(c: char) -> bool {
    let n = c as u32;
    ||| 0x9 <= n <= 0xd
    ||| n == 0x20 || n == 0x85 || n == 0xa0 || n == 0x1680
    ||| 0x2000 <= n <= 0x200a
    ||| n == 0x2028 || n == 0x2029 || n == 0x202f || n == 0x205f || n == 0x3000
}

/// Whether `c` is a character that separates words.
pub fn is_whitespace(c: char) -> (yes: bool)
    ensures
        yes == whitespace(c),
{
    let n: u32 = c as u32;
    (0x9 <= n && n <= 0xd) || n == 0x20 || n == 0x85 || n == 0xa0 || n == 0x1680 || (0x2000 <= n
        && n <= 0x200a) || n == 0x2028 || n == 0x2029 || n == 0x202f || n == 0x205f || n == 0x3000
}

/// `s` without the whitespace in front.
pub open spec fn trimmed_front(s: Seq<char>) -> Seq<char>
    decreases s.len(),
{
    if s.len() > 0 && whitespace(s[0]) {
        trimmed_front(s.drop_first())
    } else {
        s
    }
}

/// `s` without the whitespace behind.
pub open spec fn trimmed_back(s: Seq<char>) -> Seq<char>
    decreases s.len(),
{
    if s.len() > 0 && whitespace(s.last()) {
        trimmed_back(s.drop_last())
    } else {
        s
    }
}

/// `s` without the whitespace on both sides.
pub open spec fn trimmed(s: Seq<char>) -> Seq<char> {
    trimmed_back(trimmed_front(s))
}

/// Where in `chars` the text without the whitespace on both sides begins and ends.
pub fn trim_range(chars: &Vec<char>) -> (range: (usize, usize))
    ensures
        range.0 <= range.1 <= chars@.len(),
        chars@.subrange(range.0 as int, range.1 as int) == trimmed(chars@),
{
    let mut lo: usize = 0;
    assert(chars@.skip(0) =~= chars@);
    while lo < chars.len() && is_whitespace(chars[lo])
        invariant
            lo <= chars@.len(),
            trimmed_front(chars@) == trimmed_front(chars@.skip(lo as int)),
        decreases chars@.len() - lo,
    {
        assert(chars@.skip(lo as int).drop_first() =~= chars@.skip(lo + 1));
        lo += 1;
    }
    let mut hi: usize = chars.len();
    assert(chars@.subrange(lo as int, hi as int) =~= chars@.skip(lo as int));
    while hi > lo && is_whitespace(chars[hi - 1])
        invariant
            lo <= hi <= chars@.len(),
            trimmed(chars@) == trimmed_back(chars@.subrange(lo as int, hi as int)),
        decreases hi,
    {
        assert(chars@.subrange(lo as int, hi as int).drop_last() =~= chars@.subrange(
            lo as int,
            hi - 1,
        ));
        hi -= 1;
    }
    (lo, hi)
}

/// `s` without the whitespace on both sides.
pub fn trim(s: &str) -> (t: String)
    ensures
        t@ == trimmed(s@),
{
    let chars = to_chars(s);
    let (lo, hi) = trim_range(&chars);
    text_of(&chars, lo, hi)
}

/// How far the first word of `s` reaches.
pub open spec fn word_len(s: Seq<char>) -> nat
    decreases s.len(),
{
    if s.len() == 0 || whitespace(s[0]) {
        0
    } else {
        1 + word_len(s.drop_first())
    }
}

/// The words of `s`: its runs of characters without whitespace.
pub open spec fn words(s: Seq<char>) -> Seq<Seq<char>>
    decreases s.len(),
{
    if s.len() == 0 {
        Seq::empty()
    } else if whitespace(s[0]) {
        words(s.drop_first())
    } else {
        proof {
            lemma_word_len(s);
        }
        seq![s.take(word_len(s) as int)] + words(s.skip(word_len(s) as int))
    }
}

pub proof fn lemma_word_len(s: Seq<char>)
    ensures
        word_len(s) <= s.len(),
        s.len() > 0 && !whitespace(s[0]) ==> word_len(s) > 0,
    decreases s.len(),
{
    if s.len() > 0 && !whitespace(s[0]) {
        lemma_word_len(s.drop_first());
    }
}

/// The texts that `v` holds.
pub open spec fn texts(v: Seq<String>) -> Seq<Seq<char>> {
    v.map_values(|s: String| s@)
}

/// The words of `s`.
pub fn split_whitespace(s: &str) -> (out: Vec<String>)
    ensures
        texts(out@) == words(s@),
{
    let chars = to_chars(s);
    let mut out: Vec<String> = Vec::new();
    let mut i: usize = 0;
    assert(chars@.skip(0) =~= s@);
    assert(texts(out@) + words(chars@.skip(0)) =~= words(s@));
    while i < chars.len()
        invariant
            chars@ == s@,
            i <= chars@.len(),
            texts(out@) + words(chars@.skip(i as int)) == words(s@),
        decreases chars@.len() - i,
    {
        let ghost rest = chars@.skip(i as int);
        if is_whitespace(chars[i]) {
            assert(rest.drop_first() =~= chars@.skip(i + 1));
            i += 1;
        } else {
            let start: usize = i;
            assert(chars@.skip(i as int) =~= rest);
            while i < chars.len() && !is_whitespace(chars[i])
                invariant
                    start <= i <= chars@.len(),
                    rest == chars@.skip(start as int),
                    word_len(rest) == (i - start) + word_len(chars@.skip(i as int)),
                decreases chars@.len() - i,
            {
                assert(chars@.skip(i as int).drop_first() =~= chars@.skip(i + 1));
                i += 1;
            }
            proof {
                lemma_word_len(rest);
                assert(word_len(chars@.skip(i as int)) == 0);
                assert(rest.take(i - start) =~= chars@.subrange(start as int, i as int));
                assert(rest.skip(i - start) =~= chars@.skip(i as int));
            }
            let ghost before = texts(out@);
            out.push(text_of(&chars, start, i));
            assert(texts(out@) =~= before.push(rest.take(i - start)));
            assert(texts(out@) + words(chars@.skip(i as int)) =~= before + (seq![
                rest.take(i - start),
            ] + words(chars@.skip(i as int))));
        }
    }
    assert(texts(out@) + words(chars@.skip(i as int)) =~= texts(out@));
    out
}

/// The parts with `sep` between each two.
pub open spec fn joined(parts: Seq<Seq<char>>, sep: Seq<char>) -> Seq<char>
    decreases parts.len(),
{
    if parts.len() == 0 {
        Seq::empty()
    } else if parts.len() == 1 {
        parts[0]
    } else {
        joined(parts.drop_last(), sep) + sep + parts.last()
    }
}

/// The parts with `sep` between each two.
pub fn join(parts: &Vec<String>, sep: &str) -> (out: String)
    ensures
        out@ == joined(texts(parts@), sep@),
{
    let mut out = String::new();
    let mut i: usize = 0;
    assert(texts(parts@).take(0) =~= Seq::<Seq<char>>::empty());
    while i < parts.len()
        invariant
            i <= parts@.len(),
            out@ == joined(texts(parts@).take(i as int), sep@),
        decreases parts@.len() - i,
    {
        let ghost next = texts(parts@).take(i + 1);
        assert(next.drop_last() =~= texts(parts@).take(i as int));
        assert(next.last() == parts@[i as int]@);
        if i > 0 {
            out.append(sep);
        }
        out.append(parts[i].as_str());
        i += 1;
        assert(out@ =~= joined(texts(parts@).take(i as int), sep@));
    }
    assert(texts(parts@).take(i as int) =~= texts(parts@));
    out
}

/// `s` with every `from` replaced by the text `to`.
pub open spec fn replaced(s: Seq<char>, from: char, to: Seq<char>) -> Seq<char>
    decreases s.len(),
{
    if s.len() == 0 {
        Seq::empty()
    } else {
        replaced(s.drop_last(), from, to) + (if s.last() == from {
            to
        } else {
            seq![s.last()]
        })
    }
}

/// `s` with every `from` replaced by the text `to`.
pub fn replace(s: &str, from: char, to: &str) -> (out: String)
    ensures
        out@ == replaced(s@, from, to@),
{
    let chars = to_chars(s);
    let mut out = String::new();
    let mut i: usize = 0;
    assert(chars@.take(0) =~= Seq::<char>::empty());
    while i < chars.len()
        invariant
            chars@ == s@,
            i <= chars@.len(),
            out@ == replaced(chars@.take(i as int), from, to@),
        decreases chars@.len() - i,
    {
        assert(chars@.take(i + 1).drop_last() =~= chars@.take(i as int));
        if chars[i] == from {
            out.append(to);
        } else {
            out.push(chars[i]);
        }
        i += 1;
        assert(out@ =~= replaced(chars@.take(i as int), from, to@));
    }
    assert(chars@.take(i as int) =~= s@);
    out
}

/// Whether the two are the same text.
pub fn same_text(a: &str, b: &str) -> (same: bool)
    ensures
        same == (a@ == b@),
{
    same_chars(&to_chars(a), &to_chars(b))
}

/// Whether the two are the same characters.
pub fn same_chars(a: &Vec<char>, b: &Vec<char>) -> (same: bool)
    ensures
        same == (a@ == b@),
{
    if a.len() != b.len() {
        return false;
    }
    let mut i: usize = 0;
    while i < a.len()
        invariant
            i <= a@.len(),
            a@.len() == b@.len(),
            forall|k: int| 0 <= k < i ==> a@[k] == b@[k],
        decreases a@.len() - i,
    {
        if a[i] != b[i] {
            return false;
        }
        i += 1;
    }
    assert(a@ =~= b@);
    true
}

/// Replacing goes character by character: what is replaced is exactly the character asked for, and
/// what comes before and after it stays.
pub proof fn law_only_the_character_is_replaced(
    a: Seq<char>,
    b: Seq<char>,
    c: char,
    from: char,
    to: Seq<char>,
)
    ensures
        replaced(Seq::empty(), from, to) == Seq::<char>::empty(),
        replaced(seq![c], from, to) == (if c == from {
            to
        } else {
            seq![c]
        }),
        replaced(a + b, from, to) == replaced(a, from, to) + replaced(b, from, to),
        !a.contains(from) ==> replaced(a, from, to) == a,
        !to.contains(from) ==> !replaced(a, from, to).contains(from),
    decreases a.len() + b.len(),
{
    assert(seq![c].drop_last() =~= Seq::<char>::empty());
    assert(replaced(seq![c].drop_last(), from, to) + to =~= to);
    assert(replaced(seq![c].drop_last(), from, to) + seq![c] =~= seq![c]);
    if b.len() > 0 {
        law_only_the_character_is_replaced(a, b.drop_last(), c, from, to);
        assert((a + b).drop_last() =~= a + b.drop_last());
        assert((a + b).last() == b.last());
        assert(replaced(a + b, from, to) =~= replaced(a, from, to) + replaced(b, from, to));
    } else {
        assert(a + b =~= a);
        assert(replaced(a, from, to) + replaced(b, from, to) =~= replaced(a, from, to));
    }
    if a.len() > 0 {
        let front = a.drop_last();
        if b.len() == 0 {
            law_only_the_character_is_replaced(front, b, c, from, to);
        } else {
            law_only_the_character_is_replaced(front, Seq::empty(), c, from, to);
        }
        let out = replaced(a, from, to);
        if !a.contains(from) {
            assert(!front.contains(from)) by {
                if front.contains(from) {
                    let i = choose|i: int| 0 <= i < front.len() && front[i] == from;
                    assert(a[i] == from);
                }
            }
            assert(a[a.len() - 1] == a.last());
            assert(out =~= a);
        }
        if !to.contains(from) && out.contains(from) {
            let i = choose|i: int| 0 <= i < out.len() && out[i] == from;
            let before = replaced(front, from, to);
            if i < before.len() {
                assert(before[i] == from);
            } else if a.last() == from {
                assert(to[i - before.len()] == from);
            }
        }
    }
}

/// Joining puts one separator between each two parts, and keeps the parts whole and in order.
pub proof fn law_parts_are_joined_in_order(parts: Seq<Seq<char>>, sep: Seq<char>, part: Seq<char>)
    ensures
        joined(Seq::empty(), sep) == Seq::<char>::empty(),
        joined(seq![part], sep) == part,
        parts.len() > 0 ==> joined(parts.push(part), sep) == joined(parts, sep) + sep + part,
{
    assert(parts.push(part).drop_last() =~= parts);
}

/// The whitespace characters are the blanks and line ends, and no letter or digit is one.
pub proof fn law_what_separates_words(c: char)
    ensures
        whitespace(' ') && whitespace('\n') && whitespace('\t') && whitespace('\r'),
        'a' <= c <= 'z' || 'A' <= c <= 'Z' || '0' <= c <= '9' || c == '_' || c == '-' || c == '.'
            || c == ',' || c == ':' || c == '`' ==> !whitespace(c),
{
}

/// What is left of a trimmed text is the text between its whitespace: it neither starts nor ends
/// with whitespace, and only whitespace is gone.
pub proof fn law_trimming_takes_only_whitespace(s: Seq<char>)
    ensures
        ({
            let t = trimmed(s);
            &&& t.len() > 0 ==> !whitespace(t[0]) && !whitespace(t.last())
            &&& exists|lo: int, hi: int|
                {
                    &&& 0 <= lo <= hi <= s.len()
                    &&& #[trigger] s.subrange(lo, hi) == t
                    &&& forall|i: int| 0 <= i < lo ==> whitespace(#[trigger] s[i])
                    &&& forall|i: int| hi <= i < s.len() ==> whitespace(#[trigger] s[i])
                }
        }),
{
    lemma_trimmed_front(s);
    let front = trimmed_front(s);
    lemma_trimmed_back(front);
    let t = trimmed(s);
    let lo = s.len() - front.len();
    let hi = lo + t.len();
    assert(s.skip(lo) == front);
    assert(s.subrange(lo, hi) =~= front.take(t.len() as int));
    assert forall|i: int| hi <= i < s.len() implies whitespace(#[trigger] s[i]) by {
        assert(front[i - lo] == s[i]);
    }
    if t.len() > 0 {
        assert(t[0] == front[0]);
    }
}

proof fn lemma_trimmed_front(s: Seq<char>)
    ensures
        ({
            let t = trimmed_front(s);
            &&& t.len() <= s.len()
            &&& s.skip(s.len() - t.len()) == t
            &&& t.len() > 0 ==> !whitespace(t[0])
            &&& forall|i: int| 0 <= i < s.len() - t.len() ==> whitespace(#[trigger] s[i])
        }),
    decreases s.len(),
{
    if s.len() > 0 && whitespace(s[0]) {
        let rest = s.drop_first();
        lemma_trimmed_front(rest);
        let t = trimmed_front(s);
        assert(s.skip(s.len() - t.len()) =~= rest.skip(rest.len() - t.len()));
        assert forall|i: int| 0 <= i < s.len() - t.len() implies whitespace(#[trigger] s[i]) by {
            if i > 0 {
                assert(rest[i - 1] == s[i]);
            }
        }
    } else {
        assert(s.skip(0) =~= s);
    }
}

proof fn lemma_trimmed_back(s: Seq<char>)
    ensures
        ({
            let t = trimmed_back(s);
            &&& t.len() <= s.len()
            &&& s.take(t.len() as int) == t
            &&& t.len() > 0 ==> !whitespace(t.last())
            &&& forall|i: int| t.len() <= i < s.len() ==> whitespace(#[trigger] s[i])
        }),
    decreases s.len(),
{
    if s.len() > 0 && whitespace(s.last()) {
        let rest = s.drop_last();
        lemma_trimmed_back(rest);
        let t = trimmed_back(s);
        assert(s.take(t.len() as int) =~= rest.take(t.len() as int));
        assert forall|i: int| t.len() <= i < s.len() implies whitespace(#[trigger] s[i]) by {
            if i < s.len() - 1 {
                assert(rest[i] == s[i]);
            }
        }
    } else {
        assert(s.take(s.len() as int) =~= s);
    }
}

/// All the characters of the words, one after another.
pub open spec fn letters(parts: Seq<Seq<char>>) -> Seq<char>
    decreases parts.len(),
{
    if parts.len() == 0 {
        Seq::empty()
    } else {
        parts[0] + letters(parts.skip(1))
    }
}

/// The words of a text are what is not whitespace: no word is empty or has whitespace in it, and
/// together they are the text without its whitespace, in order.
pub proof fn law_words_are_what_is_not_whitespace(s: Seq<char>)
    ensures
        forall|i: int| 0 <= i < words(s).len() ==> (#[trigger] words(s)[i]).len() > 0,
        forall|i: int, k: int|
            0 <= i < words(s).len() && 0 <= k < words(s)[i].len() ==> !whitespace(
                #[trigger] words(s)[i][k],
            ),
        letters(words(s)) == s.filter(|c: char| !whitespace(c)),
    decreases s.len(),
{
    let keep = |c: char| !whitespace(c);
    if s.len() == 0 {
        assert(s.filter(keep) =~= Seq::<char>::empty()) by {
            reveal(Seq::filter);
        }
    } else if whitespace(s[0]) {
        law_words_are_what_is_not_whitespace(s.drop_first());
        assert(s =~= seq![s[0]] + s.drop_first());
        Seq::filter_distributes_over_add(seq![s[0]], s.drop_first(), keep);
        assert(seq![s[0]].filter(keep) =~= Seq::<char>::empty()) by {
            reveal_with_fuel(Seq::filter, 2);
        }
        assert(s.filter(keep) =~= s.drop_first().filter(keep));
    } else {
        lemma_word_len(s);
        lemma_word_is_no_whitespace(s);
        let n = word_len(s) as int;
        let word = s.take(n);
        let rest = s.skip(n);
        law_words_are_what_is_not_whitespace(rest);
        assert(s =~= word + rest);
        Seq::filter_distributes_over_add(word, rest, keep);
        lemma_all_kept(word, keep);
        let all = words(s);
        assert(all.skip(1) =~= words(rest));
        assert(all[0] == word);
        assert forall|i: int| 0 <= i < all.len() implies (#[trigger] all[i]).len() > 0 by {
            if i > 0 {
                assert(all[i] == words(rest)[i - 1]);
            }
        }
        assert forall|i: int, k: int|
            0 <= i < all.len() && 0 <= k < all[i].len() implies !whitespace(
            #[trigger] all[i][k],
        ) by {
            if i > 0 {
                assert(all[i] == words(rest)[i - 1]);
                assert(!whitespace(words(rest)[i - 1][k]));
            }
        }
    }
}

proof fn lemma_word_is_no_whitespace(s: Seq<char>)
    ensures
        word_len(s) <= s.len(),
        forall|i: int| 0 <= i < word_len(s) ==> !whitespace(#[trigger] s[i]),
        word_len(s) < s.len() ==> whitespace(s[word_len(s) as int]),
    decreases s.len(),
{
    if s.len() > 0 && !whitespace(s[0]) {
        let rest = s.drop_first();
        lemma_word_is_no_whitespace(rest);
        assert forall|i: int| 0 <= i < word_len(s) implies !whitespace(#[trigger] s[i]) by {
            if i > 0 {
                assert(rest[i - 1] == s[i]);
            }
        }
    }
}

proof fn lemma_all_kept(s: Seq<char>, keep: spec_fn(char) -> bool)
    requires
        forall|i: int| 0 <= i < s.len() ==> keep(#[trigger] s[i]),
    ensures
        s.filter(keep) == s,
    decreases s.len(),
{
    reveal(Seq::filter);
    if s.len() > 0 {
        let front = s.drop_last();
        assert forall|i: int| 0 <= i < front.len() implies keep(#[trigger] front[i]) by {
            assert(front[i] == s[i]);
        }
        lemma_all_kept(front, keep);
        assert(s[s.len() - 1] == s.last());
        assert(front.push(s.last()) =~= s);
    } else {
        assert(s.filter(keep) =~= s);
    }
}

/// A word ends where whitespace does, or the text: the first word of a text with a blank behind it
/// is that word.
pub proof fn law_a_blank_ends_a_word(word: Seq<char>, rest: Seq<char>)
    requires
        word.len() > 0,
        forall|i: int| 0 <= i < word.len() ==> !whitespace(#[trigger] word[i]),
    ensures
        words(word) == seq![word],
        words(word + seq![' '] + rest) == seq![word] + words(rest),
{
    lemma_len_of_word(word, Seq::empty());
    lemma_len_of_word(word, seq![' '] + rest);
    assert(word + Seq::<char>::empty() =~= word);
    assert(word.take(word.len() as int) =~= word);
    assert(word.skip(word.len() as int) =~= Seq::<char>::empty());
    assert(seq![word] + Seq::<Seq<char>>::empty() =~= seq![word]);
    let all = word + seq![' '] + rest;
    assert(all =~= word + (seq![' '] + rest));
    assert(all[0] == word[0]);
    assert(all.take(word.len() as int) =~= word);
    assert(all.skip(word.len() as int) =~= seq![' '] + rest);
    assert((seq![' '] + rest).drop_first() =~= rest);
    assert(!whitespace(word[0]));
    reveal_with_fuel(words, 3);
    assert(words(Seq::<char>::empty()) =~= Seq::<Seq<char>>::empty());
    assert(words(word) == seq![word] + words(Seq::<char>::empty()));
    assert(words(seq![' '] + rest) == words(rest));
    assert(words(all) == seq![word] + words(seq![' '] + rest));
}

proof fn lemma_len_of_word(word: Seq<char>, rest: Seq<char>)
    requires
        forall|i: int| 0 <= i < word.len() ==> !whitespace(#[trigger] word[i]),
        rest.len() > 0 ==> whitespace(rest[0]),
    ensures
        word_len(word + rest) == word.len(),
    decreases word.len(),
{
    let all = word + rest;
    if word.len() > 0 {
        let tail = word.drop_first();
        assert forall|i: int| 0 <= i < tail.len() implies !whitespace(#[trigger] tail[i]) by {
            assert(tail[i] == word[i + 1]);
        }
        lemma_len_of_word(tail, rest);
        assert(all.drop_first() =~= tail + rest);
        assert(all[0] == word[0]);
    }
}

/// An aligned text has the width asked for, or its own if that is more, and ends or starts with the
/// text; the rest is blanks.
pub proof fn law_alignment_adds_blanks(text: Seq<char>, width: nat)
    ensures
        ({
            let right = right_aligned(text, width);
            let left = left_aligned(text, width);
            let n = text.len() as int;
            &&& right.len() == (if n < width {
                width as int
            } else {
                n
            })
            &&& left.len() == right.len()
            &&& right.skip(right.len() - n) == text
            &&& left.take(n) == text
            &&& forall|i: int| 0 <= i < right.len() - n ==> #[trigger] right[i] == ' '
            &&& forall|i: int| n <= i < left.len() ==> #[trigger] left[i] == ' '
        }),
{
    let right = right_aligned(text, width);
    let left = left_aligned(text, width);
    assert(right.skip(right.len() - text.len()) =~= text);
    assert(left.take(text.len() as int) =~= text);
}

/// A negative number has a minus sign in front of the digits of its size, and a number reads back
/// from its digits.
pub proof fn law_numbers_are_written_in_digits(n: int)
    ensures
        n >= 0 ==> crate::base_n::parsed(signed_decimal(n), 10) == n,
        n >= 0 ==> crate::base_n::parsed(decimal(n as nat), 10) == n,
        n < 0 ==> signed_decimal(n).len() > 1 && signed_decimal(n)[0] == '-'
            && crate::base_n::parsed(signed_decimal(n).skip(1), 10) == -n,
{
    if n >= 0 {
        crate::base_n::law_digits_read_back(n as nat, 10);
    } else {
        crate::base_n::law_digits_read_back((-n) as nat, 10);
        assert(signed_decimal(n).skip(1) =~= decimal((-n) as nat));
    }
}

} // verus!
