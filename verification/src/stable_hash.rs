//! Hashing that is stable across sessions.
//!
//! A value feeds the hasher words that tell it from every other value of its type, and that do not
//! depend on the session or the machine. What the hasher makes of the words is its own affair; here
//! it keeps them.

use std::collections::BTreeMap;
use std::collections::BTreeSet;

use vstd::prelude::*;
use vstd::std_specs::cmp::OrdSpec;
use vstd::std_specs::iter::IteratorSpec;
use vstd::utf8::encode_utf8;

use crate::id_map::IdMap;

verus! {

/// A word that is fed to the hasher.
#[derive(Clone, Copy, Debug, PartialEq, Eq, Structural)]
pub enum Feed {
    U8(u8),
    U16(u16),
    U32(u32),
    U64(u64),
    U128(u128),
    /// A `usize`, which is 64 bits wide to the hasher on every machine.
    Usize(u64),
    I8(i8),
    I16(i16),
    I32(i32),
    I64(i64),
    I128(i128),
    /// An `isize`, which is 64 bits wide to the hasher on every machine.
    Isize(i64),
}

/// What was fed, in order.
pub struct StableHasher {
    words: Vec<Feed>,
}

impl StableHasher {
    pub closed spec fn view(&self) -> Seq<Feed> {
        self.words@
    }

    pub fn new() -> (hasher: StableHasher)
        ensures
            hasher@ == Seq::<Feed>::empty(),
    {
        StableHasher { words: Vec::new() }
    }

    pub fn write(&mut self, word: Feed)
        ensures
            final(self)@ == old(self)@.push(word),
    {
        self.words.push(word);
    }

    /// What was fed, in order.
    pub fn finish(self) -> (words: Vec<Feed>)
        ensures
            words@ == self@,
    {
        self.words
    }
}

/// A span, by its parts.
#[derive(Clone, Copy, Debug, PartialEq, Eq, Structural)]
pub struct RawSpan(pub u32, pub u16, pub u16);

/// The number of a definition: its crate, and its place there.
#[derive(Clone, Copy, Debug, PartialEq, Eq, Structural)]
pub struct RawDefId(pub u32, pub u32);

/// What is hashed and what is not. A cached hash holds for the controls that it was made under.
#[derive(Clone, Copy, Debug, PartialEq, Eq, Hash, Structural)]
pub struct StableHashControls {
    pub hash_spans: bool,
}

/// What stable hashing needs to know of the session. The modules that own it supply it.
pub trait StableHashCtxt {
    fn stable_hash_span(&mut self, span: RawSpan, hasher: &mut StableHasher);

    /// The fingerprint of a definition's path.
    fn def_path_hash(&self, def_id: RawDefId) -> u128;

    fn stable_hash_controls(&self) -> StableHashControls;
}

/// A type whose values can be hashed in a way that is stable across sessions.
///
/// Hashes serve as identifiers, so equal values feed the same words, and different ones different
/// words, whatever is fed after them.
pub trait StableHash {
    /// The words that the value feeds.
    spec fn fed(&self) -> Seq<Feed>;

    /// The values are equal.
    spec fn same(&self, other: &Self) -> bool;

    /// Every length in the value is one that a machine has.
    spec fn fits(&self) -> bool;

    fn stable_hash<Hcx: StableHashCtxt>(&self, hcx: &mut Hcx, hasher: &mut StableHasher)
        ensures
            final(hasher)@ == old(hasher)@ + self.fed(),
    ;

    proof fn lemma_equal_feed(&self, other: &Self)
        requires
            self.same(other),
        ensures
            self.fed() == other.fed(),
    ;

    proof fn lemma_tells_apart(&self, other: &Self, rest: Seq<Feed>, other_rest: Seq<Feed>)
        requires
            self.fits(),
            other.fits(),
            self.fed() + rest == other.fed() + other_rest,
        ensures
            self.same(other),
            rest == other_rest,
    ;
}

/// Equal values feed the same words.
pub proof fn law_equal_values_feed_the_same<T: StableHash>(a: T, b: T)
    requires
        a.same(&b),
    ensures
        a.fed() == b.fed(),
{
    a.lemma_equal_feed(&b);
}

/// Different values feed different words.
pub proof fn law_different_values_feed_differently<T: StableHash>(a: T, b: T)
    requires
        a.fits(),
        b.fits(),
        !a.same(&b),
    ensures
        a.fed() != b.fed(),
{
    if a.fed() == b.fed() {
        a.lemma_tells_apart(&b, Seq::empty(), Seq::empty());
    }
}

/// One value after the other feeds words that tell both: no pair of values is taken for another.
pub proof fn law_values_in_a_row_stay_apart<A: StableHash, B: StableHash>(
    a: A,
    b: B,
    other_a: A,
    other_b: B,
)
    requires
        a.fits(),
        b.fits(),
        other_a.fits(),
        other_b.fits(),
        a.fed() + b.fed() == other_a.fed() + other_b.fed(),
    ensures
        a.same(&other_a),
        b.same(&other_b),
{
    a.lemma_tells_apart(&other_a, b.fed(), other_b.fed());
    assert(b.fed() + Seq::empty() =~= other_b.fed() + Seq::<Feed>::empty());
    b.lemma_tells_apart(&other_b, Seq::empty(), Seq::empty());
}

/// A character is its number.
proof fn lemma_char_number(c: char)
    ensures
        (c as u32) as int == c as int,
{
}

/// Two sequences that begin with one word each are equal in that word and in the rest.
proof fn lemma_first_word(x: Feed, y: Feed, a: Seq<Feed>, b: Seq<Feed>)
    requires
        seq![x] + a == seq![y] + b,
    ensures
        x == y,
        a == b,
{
    let l = seq![x] + a;
    let r = seq![y] + b;
    assert(l[0] == x && r[0] == y);
    assert(l.drop_first() =~= a);
    assert(r.drop_first() =~= b);
}

impl StableHash for u8 {
    open spec fn fed(&self) -> Seq<Feed> {
        seq![Feed::U8(*self)]
    }

    open spec fn same(&self, other: &Self) -> bool {
        *self == *other
    }

    open spec fn fits(&self) -> bool {
        true
    }

    fn stable_hash<Hcx: StableHashCtxt>(&self, _hcx: &mut Hcx, hasher: &mut StableHasher) {
        hasher.write(Feed::U8(*self));
        assert(hasher@ =~= old(hasher)@ + self.fed());
    }

    proof fn lemma_equal_feed(&self, other: &Self) {
    }

    proof fn lemma_tells_apart(&self, other: &Self, rest: Seq<Feed>, other_rest: Seq<Feed>) {
        lemma_first_word(Feed::U8(*self), Feed::U8(*other), rest, other_rest);
    }
}

impl StableHash for u16 {
    open spec fn fed(&self) -> Seq<Feed> {
        seq![Feed::U16(*self)]
    }

    open spec fn same(&self, other: &Self) -> bool {
        *self == *other
    }

    open spec fn fits(&self) -> bool {
        true
    }

    fn stable_hash<Hcx: StableHashCtxt>(&self, _hcx: &mut Hcx, hasher: &mut StableHasher) {
        hasher.write(Feed::U16(*self));
        assert(hasher@ =~= old(hasher)@ + self.fed());
    }

    proof fn lemma_equal_feed(&self, other: &Self) {
    }

    proof fn lemma_tells_apart(&self, other: &Self, rest: Seq<Feed>, other_rest: Seq<Feed>) {
        lemma_first_word(Feed::U16(*self), Feed::U16(*other), rest, other_rest);
    }
}

impl StableHash for u32 {
    open spec fn fed(&self) -> Seq<Feed> {
        seq![Feed::U32(*self)]
    }

    open spec fn same(&self, other: &Self) -> bool {
        *self == *other
    }

    open spec fn fits(&self) -> bool {
        true
    }

    fn stable_hash<Hcx: StableHashCtxt>(&self, _hcx: &mut Hcx, hasher: &mut StableHasher) {
        hasher.write(Feed::U32(*self));
        assert(hasher@ =~= old(hasher)@ + self.fed());
    }

    proof fn lemma_equal_feed(&self, other: &Self) {
    }

    proof fn lemma_tells_apart(&self, other: &Self, rest: Seq<Feed>, other_rest: Seq<Feed>) {
        lemma_first_word(Feed::U32(*self), Feed::U32(*other), rest, other_rest);
    }
}

impl StableHash for u64 {
    open spec fn fed(&self) -> Seq<Feed> {
        seq![Feed::U64(*self)]
    }

    open spec fn same(&self, other: &Self) -> bool {
        *self == *other
    }

    open spec fn fits(&self) -> bool {
        true
    }

    fn stable_hash<Hcx: StableHashCtxt>(&self, _hcx: &mut Hcx, hasher: &mut StableHasher) {
        hasher.write(Feed::U64(*self));
        assert(hasher@ =~= old(hasher)@ + self.fed());
    }

    proof fn lemma_equal_feed(&self, other: &Self) {
    }

    proof fn lemma_tells_apart(&self, other: &Self, rest: Seq<Feed>, other_rest: Seq<Feed>) {
        lemma_first_word(Feed::U64(*self), Feed::U64(*other), rest, other_rest);
    }
}

impl StableHash for u128 {
    open spec fn fed(&self) -> Seq<Feed> {
        seq![Feed::U128(*self)]
    }

    open spec fn same(&self, other: &Self) -> bool {
        *self == *other
    }

    open spec fn fits(&self) -> bool {
        true
    }

    fn stable_hash<Hcx: StableHashCtxt>(&self, _hcx: &mut Hcx, hasher: &mut StableHasher) {
        hasher.write(Feed::U128(*self));
        assert(hasher@ =~= old(hasher)@ + self.fed());
    }

    proof fn lemma_equal_feed(&self, other: &Self) {
    }

    proof fn lemma_tells_apart(&self, other: &Self, rest: Seq<Feed>, other_rest: Seq<Feed>) {
        lemma_first_word(Feed::U128(*self), Feed::U128(*other), rest, other_rest);
    }
}

impl StableHash for usize {
    open spec fn fed(&self) -> Seq<Feed> {
        seq![Feed::Usize(*self as u64)]
    }

    open spec fn same(&self, other: &Self) -> bool {
        *self == *other
    }

    open spec fn fits(&self) -> bool {
        true
    }

    fn stable_hash<Hcx: StableHashCtxt>(&self, _hcx: &mut Hcx, hasher: &mut StableHasher) {
        hasher.write(Feed::Usize(*self as u64));
        assert(hasher@ =~= old(hasher)@ + self.fed());
    }

    proof fn lemma_equal_feed(&self, other: &Self) {
    }

    proof fn lemma_tells_apart(&self, other: &Self, rest: Seq<Feed>, other_rest: Seq<Feed>) {
        lemma_first_word(Feed::Usize(*self as u64), Feed::Usize(*other as u64), rest, other_rest);
    }
}

impl StableHash for i8 {
    open spec fn fed(&self) -> Seq<Feed> {
        seq![Feed::I8(*self)]
    }

    open spec fn same(&self, other: &Self) -> bool {
        *self == *other
    }

    open spec fn fits(&self) -> bool {
        true
    }

    fn stable_hash<Hcx: StableHashCtxt>(&self, _hcx: &mut Hcx, hasher: &mut StableHasher) {
        hasher.write(Feed::I8(*self));
        assert(hasher@ =~= old(hasher)@ + self.fed());
    }

    proof fn lemma_equal_feed(&self, other: &Self) {
    }

    proof fn lemma_tells_apart(&self, other: &Self, rest: Seq<Feed>, other_rest: Seq<Feed>) {
        lemma_first_word(Feed::I8(*self), Feed::I8(*other), rest, other_rest);
    }
}

impl StableHash for i16 {
    open spec fn fed(&self) -> Seq<Feed> {
        seq![Feed::I16(*self)]
    }

    open spec fn same(&self, other: &Self) -> bool {
        *self == *other
    }

    open spec fn fits(&self) -> bool {
        true
    }

    fn stable_hash<Hcx: StableHashCtxt>(&self, _hcx: &mut Hcx, hasher: &mut StableHasher) {
        hasher.write(Feed::I16(*self));
        assert(hasher@ =~= old(hasher)@ + self.fed());
    }

    proof fn lemma_equal_feed(&self, other: &Self) {
    }

    proof fn lemma_tells_apart(&self, other: &Self, rest: Seq<Feed>, other_rest: Seq<Feed>) {
        lemma_first_word(Feed::I16(*self), Feed::I16(*other), rest, other_rest);
    }
}

impl StableHash for i32 {
    open spec fn fed(&self) -> Seq<Feed> {
        seq![Feed::I32(*self)]
    }

    open spec fn same(&self, other: &Self) -> bool {
        *self == *other
    }

    open spec fn fits(&self) -> bool {
        true
    }

    fn stable_hash<Hcx: StableHashCtxt>(&self, _hcx: &mut Hcx, hasher: &mut StableHasher) {
        hasher.write(Feed::I32(*self));
        assert(hasher@ =~= old(hasher)@ + self.fed());
    }

    proof fn lemma_equal_feed(&self, other: &Self) {
    }

    proof fn lemma_tells_apart(&self, other: &Self, rest: Seq<Feed>, other_rest: Seq<Feed>) {
        lemma_first_word(Feed::I32(*self), Feed::I32(*other), rest, other_rest);
    }
}

impl StableHash for i64 {
    open spec fn fed(&self) -> Seq<Feed> {
        seq![Feed::I64(*self)]
    }

    open spec fn same(&self, other: &Self) -> bool {
        *self == *other
    }

    open spec fn fits(&self) -> bool {
        true
    }

    fn stable_hash<Hcx: StableHashCtxt>(&self, _hcx: &mut Hcx, hasher: &mut StableHasher) {
        hasher.write(Feed::I64(*self));
        assert(hasher@ =~= old(hasher)@ + self.fed());
    }

    proof fn lemma_equal_feed(&self, other: &Self) {
    }

    proof fn lemma_tells_apart(&self, other: &Self, rest: Seq<Feed>, other_rest: Seq<Feed>) {
        lemma_first_word(Feed::I64(*self), Feed::I64(*other), rest, other_rest);
    }
}

impl StableHash for i128 {
    open spec fn fed(&self) -> Seq<Feed> {
        seq![Feed::I128(*self)]
    }

    open spec fn same(&self, other: &Self) -> bool {
        *self == *other
    }

    open spec fn fits(&self) -> bool {
        true
    }

    fn stable_hash<Hcx: StableHashCtxt>(&self, _hcx: &mut Hcx, hasher: &mut StableHasher) {
        hasher.write(Feed::I128(*self));
        assert(hasher@ =~= old(hasher)@ + self.fed());
    }

    proof fn lemma_equal_feed(&self, other: &Self) {
    }

    proof fn lemma_tells_apart(&self, other: &Self, rest: Seq<Feed>, other_rest: Seq<Feed>) {
        lemma_first_word(Feed::I128(*self), Feed::I128(*other), rest, other_rest);
    }
}

impl StableHash for isize {
    open spec fn fed(&self) -> Seq<Feed> {
        seq![Feed::Isize(*self as i64)]
    }

    open spec fn same(&self, other: &Self) -> bool {
        *self == *other
    }

    open spec fn fits(&self) -> bool {
        true
    }

    fn stable_hash<Hcx: StableHashCtxt>(&self, _hcx: &mut Hcx, hasher: &mut StableHasher) {
        hasher.write(Feed::Isize(*self as i64));
        assert(hasher@ =~= old(hasher)@ + self.fed());
    }

    proof fn lemma_equal_feed(&self, other: &Self) {
    }

    proof fn lemma_tells_apart(&self, other: &Self, rest: Seq<Feed>, other_rest: Seq<Feed>) {
        lemma_first_word(Feed::Isize(*self as i64), Feed::Isize(*other as i64), rest, other_rest);
    }
}

impl StableHash for char {
    open spec fn fed(&self) -> Seq<Feed> {
        seq![Feed::U32(*self as u32)]
    }

    open spec fn same(&self, other: &Self) -> bool {
        *self == *other
    }

    open spec fn fits(&self) -> bool {
        true
    }

    fn stable_hash<Hcx: StableHashCtxt>(&self, _hcx: &mut Hcx, hasher: &mut StableHasher) {
        hasher.write(Feed::U32(*self as u32));
        assert(hasher@ =~= old(hasher)@ + self.fed());
    }

    proof fn lemma_equal_feed(&self, other: &Self) {
    }

    proof fn lemma_tells_apart(&self, other: &Self, rest: Seq<Feed>, other_rest: Seq<Feed>) {
        lemma_first_word(Feed::U32(*self as u32), Feed::U32(*other as u32), rest, other_rest);
        lemma_char_number(*self);
        lemma_char_number(*other);
    }
}

impl StableHash for bool {
    open spec fn fed(&self) -> Seq<Feed> {
        seq![Feed::U8(if *self { 1 } else { 0 })]
    }

    open spec fn same(&self, other: &Self) -> bool {
        *self == *other
    }

    open spec fn fits(&self) -> bool {
        true
    }

    fn stable_hash<Hcx: StableHashCtxt>(&self, hcx: &mut Hcx, hasher: &mut StableHasher) {
        let n: u8 = if *self {
            1
        } else {
            0
        };
        n.stable_hash(hcx, hasher);
    }

    proof fn lemma_equal_feed(&self, other: &Self) {
    }

    proof fn lemma_tells_apart(&self, other: &Self, rest: Seq<Feed>, other_rest: Seq<Feed>) {
        lemma_first_word(self.fed()[0], other.fed()[0], rest, other_rest);
    }
}

impl StableHash for () {
    open spec fn fed(&self) -> Seq<Feed> {
        Seq::empty()
    }

    open spec fn same(&self, other: &Self) -> bool {
        true
    }

    open spec fn fits(&self) -> bool {
        true
    }

    fn stable_hash<Hcx: StableHashCtxt>(&self, _hcx: &mut Hcx, hasher: &mut StableHasher) {
        assert(hasher@ =~= old(hasher)@ + self.fed());
    }

    proof fn lemma_equal_feed(&self, other: &Self) {
    }

    proof fn lemma_tells_apart(&self, other: &Self, rest: Seq<Feed>, other_rest: Seq<Feed>) {
        assert(self.fed() + rest =~= rest);
        assert(other.fed() + other_rest =~= other_rest);
    }
}

impl<T: StableHash> StableHash for Box<T> {
    open spec fn fed(&self) -> Seq<Feed> {
        (**self).fed()
    }

    open spec fn same(&self, other: &Self) -> bool {
        (**self).same(&**other)
    }

    open spec fn fits(&self) -> bool {
        (**self).fits()
    }

    fn stable_hash<Hcx: StableHashCtxt>(&self, hcx: &mut Hcx, hasher: &mut StableHasher) {
        (**self).stable_hash(hcx, hasher);
    }

    proof fn lemma_equal_feed(&self, other: &Self) {
        (**self).lemma_equal_feed(&**other);
    }

    proof fn lemma_tells_apart(&self, other: &Self, rest: Seq<Feed>, other_rest: Seq<Feed>) {
        (**self).lemma_tells_apart(&**other, rest, other_rest);
    }
}

/// A reference feeds what it refers to.
impl<'a, T: StableHash + ?Sized> StableHash for &'a T {
    open spec fn fed(&self) -> Seq<Feed> {
        (**self).fed()
    }

    open spec fn same(&self, other: &Self) -> bool {
        (**self).same(&**other)
    }

    open spec fn fits(&self) -> bool {
        (**self).fits()
    }

    fn stable_hash<Hcx: StableHashCtxt>(&self, hcx: &mut Hcx, hasher: &mut StableHasher) {
        (**self).stable_hash(hcx, hasher);
    }

    proof fn lemma_equal_feed(&self, other: &Self) {
        (**self).lemma_equal_feed(&**other);
    }

    proof fn lemma_tells_apart(&self, other: &Self, rest: Seq<Feed>, other_rest: Seq<Feed>) {
        (**self).lemma_tells_apart(&**other, rest, other_rest);
    }
}

impl<T: StableHash> StableHash for std::rc::Rc<T> {
    open spec fn fed(&self) -> Seq<Feed> {
        (**self).fed()
    }

    open spec fn same(&self, other: &Self) -> bool {
        (**self).same(&**other)
    }

    open spec fn fits(&self) -> bool {
        (**self).fits()
    }

    fn stable_hash<Hcx: StableHashCtxt>(&self, hcx: &mut Hcx, hasher: &mut StableHasher) {
        (**self).stable_hash(hcx, hasher);
    }

    proof fn lemma_equal_feed(&self, other: &Self) {
        (**self).lemma_equal_feed(&**other);
    }

    proof fn lemma_tells_apart(&self, other: &Self, rest: Seq<Feed>, other_rest: Seq<Feed>) {
        (**self).lemma_tells_apart(&**other, rest, other_rest);
    }
}

impl<T: StableHash> StableHash for std::sync::Arc<T> {
    open spec fn fed(&self) -> Seq<Feed> {
        (**self).fed()
    }

    open spec fn same(&self, other: &Self) -> bool {
        (**self).same(&**other)
    }

    open spec fn fits(&self) -> bool {
        (**self).fits()
    }

    fn stable_hash<Hcx: StableHashCtxt>(&self, hcx: &mut Hcx, hasher: &mut StableHasher) {
        (**self).stable_hash(hcx, hasher);
    }

    proof fn lemma_equal_feed(&self, other: &Self) {
        (**self).lemma_equal_feed(&**other);
    }

    proof fn lemma_tells_apart(&self, other: &Self, rest: Seq<Feed>, other_rest: Seq<Feed>) {
        (**self).lemma_tells_apart(&**other, rest, other_rest);
    }
}

/// There is nothing to tell apart.
impl<T> StableHash for core::marker::PhantomData<T> {
    open spec fn fed(&self) -> Seq<Feed> {
        Seq::empty()
    }

    open spec fn same(&self, other: &Self) -> bool {
        true
    }

    open spec fn fits(&self) -> bool {
        true
    }

    fn stable_hash<Hcx: StableHashCtxt>(&self, _hcx: &mut Hcx, hasher: &mut StableHasher) {
        assert(hasher@ =~= old(hasher)@ + self.fed());
    }

    proof fn lemma_equal_feed(&self, other: &Self) {
    }

    proof fn lemma_tells_apart(&self, other: &Self, rest: Seq<Feed>, other_rest: Seq<Feed>) {
        assert(self.fed() + rest =~= rest);
        assert(other.fed() + other_rest =~= other_rest);
    }
}

impl<T: StableHash> StableHash for Option<T> {
    open spec fn fed(&self) -> Seq<Feed> {
        match self {
            Some(value) => seq![Feed::U8(1)] + value.fed(),
            None => seq![Feed::U8(0)],
        }
    }

    open spec fn same(&self, other: &Self) -> bool {
        match (self, other) {
            (Some(a), Some(b)) => a.same(b),
            (None, None) => true,
            _ => false,
        }
    }

    open spec fn fits(&self) -> bool {
        *self matches Some(value) ==> value.fits()
    }

    fn stable_hash<Hcx: StableHashCtxt>(&self, hcx: &mut Hcx, hasher: &mut StableHasher) {
        if let Some(value) = self {
            1u8.stable_hash(hcx, hasher);
            value.stable_hash(hcx, hasher);
        } else {
            0u8.stable_hash(hcx, hasher);
        }
        assert(hasher@ =~= old(hasher)@ + self.fed());
    }

    proof fn lemma_equal_feed(&self, other: &Self) {
        match (self, other) {
            (Some(a), Some(b)) => {
                a.lemma_equal_feed(b);
            },
            _ => {},
        }
    }

    proof fn lemma_tells_apart(&self, other: &Self, rest: Seq<Feed>, other_rest: Seq<Feed>) {
        let mine = match self {
            Some(value) => value.fed() + rest,
            None => rest,
        };
        let theirs = match other {
            Some(value) => value.fed() + other_rest,
            None => other_rest,
        };
        assert(self.fed() + rest =~= seq![self.fed()[0]] + mine);
        assert(other.fed() + other_rest =~= seq![other.fed()[0]] + theirs);
        lemma_first_word(self.fed()[0], other.fed()[0], mine, theirs);
        match (self, other) {
            (Some(a), Some(b)) => {
                a.lemma_tells_apart(b, rest, other_rest);
            },
            _ => {},
        }
    }
}

impl<T1: StableHash, T2: StableHash> StableHash for Result<T1, T2> {
    open spec fn fed(&self) -> Seq<Feed> {
        match self {
            Ok(value) => seq![Feed::Isize(0)] + value.fed(),
            Err(value) => seq![Feed::Isize(1)] + value.fed(),
        }
    }

    open spec fn same(&self, other: &Self) -> bool {
        match (self, other) {
            (Ok(a), Ok(b)) => a.same(b),
            (Err(a), Err(b)) => a.same(b),
            _ => false,
        }
    }

    open spec fn fits(&self) -> bool {
        match self {
            Ok(value) => value.fits(),
            Err(value) => value.fits(),
        }
    }

    fn stable_hash<Hcx: StableHashCtxt>(&self, hcx: &mut Hcx, hasher: &mut StableHasher) {
        match self {
            Ok(value) => {
                0isize.stable_hash(hcx, hasher);
                value.stable_hash(hcx, hasher);
            },
            Err(value) => {
                1isize.stable_hash(hcx, hasher);
                value.stable_hash(hcx, hasher);
            },
        }
        assert(hasher@ =~= old(hasher)@ + self.fed());
    }

    proof fn lemma_equal_feed(&self, other: &Self) {
        match (self, other) {
            (Ok(a), Ok(b)) => {
                a.lemma_equal_feed(b);
            },
            (Err(a), Err(b)) => {
                a.lemma_equal_feed(b);
            },
            _ => {},
        }
    }

    proof fn lemma_tells_apart(&self, other: &Self, rest: Seq<Feed>, other_rest: Seq<Feed>) {
        let mine = match self {
            Ok(value) => value.fed() + rest,
            Err(value) => value.fed() + rest,
        };
        let theirs = match other {
            Ok(value) => value.fed() + other_rest,
            Err(value) => value.fed() + other_rest,
        };
        assert(self.fed() + rest =~= seq![self.fed()[0]] + mine);
        assert(other.fed() + other_rest =~= seq![other.fed()[0]] + theirs);
        lemma_first_word(self.fed()[0], other.fed()[0], mine, theirs);
        match (self, other) {
            (Ok(a), Ok(b)) => {
                a.lemma_tells_apart(b, rest, other_rest);
            },
            (Err(a), Err(b)) => {
                a.lemma_tells_apart(b, rest, other_rest);
            },
            _ => {},
        }
    }
}

impl<T1: StableHash> StableHash for (T1,) {
    open spec fn fed(&self) -> Seq<Feed> {
        self.0.fed()
    }

    open spec fn same(&self, other: &Self) -> bool {
        self.0.same(&other.0)
    }

    open spec fn fits(&self) -> bool {
        self.0.fits()
    }

    fn stable_hash<Hcx: StableHashCtxt>(&self, hcx: &mut Hcx, hasher: &mut StableHasher) {
        self.0.stable_hash(hcx, hasher);
        assert(hasher@ =~= old(hasher)@ + self.fed());
    }

    proof fn lemma_equal_feed(&self, other: &Self) {
        self.0.lemma_equal_feed(&other.0);
    }

    proof fn lemma_tells_apart(&self, other: &Self, rest: Seq<Feed>, other_rest: Seq<Feed>) {
        self.0.lemma_tells_apart(&other.0, rest, other_rest);
    }
}

impl<T1: StableHash, T2: StableHash> StableHash for (T1, T2) {
    open spec fn fed(&self) -> Seq<Feed> {
        self.0.fed() + self.1.fed()
    }

    open spec fn same(&self, other: &Self) -> bool {
        self.0.same(&other.0) && self.1.same(&other.1)
    }

    open spec fn fits(&self) -> bool {
        self.0.fits() && self.1.fits()
    }

    fn stable_hash<Hcx: StableHashCtxt>(&self, hcx: &mut Hcx, hasher: &mut StableHasher) {
        self.0.stable_hash(hcx, hasher);
        self.1.stable_hash(hcx, hasher);
        assert(hasher@ =~= old(hasher)@ + self.fed());
    }

    proof fn lemma_equal_feed(&self, other: &Self) {
        self.0.lemma_equal_feed(&other.0);
        self.1.lemma_equal_feed(&other.1);
    }

    proof fn lemma_tells_apart(&self, other: &Self, rest: Seq<Feed>, other_rest: Seq<Feed>) {
        assert(self.fed() + rest =~= self.0.fed() + (self.1.fed() + rest));
        assert(other.fed() + other_rest =~= other.0.fed() + (other.1.fed() + other_rest));
        self.0.lemma_tells_apart(&other.0, (self.1.fed() + rest), (other.1.fed() + other_rest));
        self.1.lemma_tells_apart(&other.1, rest, other_rest);
    }
}

impl<T1: StableHash, T2: StableHash, T3: StableHash> StableHash for (T1, T2, T3) {
    open spec fn fed(&self) -> Seq<Feed> {
        self.0.fed() + self.1.fed() + self.2.fed()
    }

    open spec fn same(&self, other: &Self) -> bool {
        self.0.same(&other.0) && self.1.same(&other.1) && self.2.same(&other.2)
    }

    open spec fn fits(&self) -> bool {
        self.0.fits() && self.1.fits() && self.2.fits()
    }

    fn stable_hash<Hcx: StableHashCtxt>(&self, hcx: &mut Hcx, hasher: &mut StableHasher) {
        self.0.stable_hash(hcx, hasher);
        self.1.stable_hash(hcx, hasher);
        self.2.stable_hash(hcx, hasher);
        assert(hasher@ =~= old(hasher)@ + self.fed());
    }

    proof fn lemma_equal_feed(&self, other: &Self) {
        self.0.lemma_equal_feed(&other.0);
        self.1.lemma_equal_feed(&other.1);
        self.2.lemma_equal_feed(&other.2);
    }

    proof fn lemma_tells_apart(&self, other: &Self, rest: Seq<Feed>, other_rest: Seq<Feed>) {
        assert(self.fed() + rest =~= self.0.fed() + (self.1.fed() + (self.2.fed() + rest)));
        assert(other.fed() + other_rest =~= other.0.fed() + (other.1.fed() + (other.2.fed() + other_rest)));
        self.0.lemma_tells_apart(&other.0, (self.1.fed() + (self.2.fed() + rest)), (other.1.fed() + (other.2.fed() + other_rest)));
        self.1.lemma_tells_apart(&other.1, (self.2.fed() + rest), (other.2.fed() + other_rest));
        self.2.lemma_tells_apart(&other.2, rest, other_rest);
    }
}

impl<T1: StableHash, T2: StableHash, T3: StableHash, T4: StableHash> StableHash for (T1, T2, T3, T4) {
    open spec fn fed(&self) -> Seq<Feed> {
        self.0.fed() + self.1.fed() + self.2.fed() + self.3.fed()
    }

    open spec fn same(&self, other: &Self) -> bool {
        self.0.same(&other.0) && self.1.same(&other.1) && self.2.same(&other.2) && self.3.same(&other.3)
    }

    open spec fn fits(&self) -> bool {
        self.0.fits() && self.1.fits() && self.2.fits() && self.3.fits()
    }

    fn stable_hash<Hcx: StableHashCtxt>(&self, hcx: &mut Hcx, hasher: &mut StableHasher) {
        self.0.stable_hash(hcx, hasher);
        self.1.stable_hash(hcx, hasher);
        self.2.stable_hash(hcx, hasher);
        self.3.stable_hash(hcx, hasher);
        assert(hasher@ =~= old(hasher)@ + self.fed());
    }

    proof fn lemma_equal_feed(&self, other: &Self) {
        self.0.lemma_equal_feed(&other.0);
        self.1.lemma_equal_feed(&other.1);
        self.2.lemma_equal_feed(&other.2);
        self.3.lemma_equal_feed(&other.3);
    }

    proof fn lemma_tells_apart(&self, other: &Self, rest: Seq<Feed>, other_rest: Seq<Feed>) {
        assert(self.fed() + rest =~= self.0.fed() + (self.1.fed() + (self.2.fed() + (self.3.fed() + rest))));
        assert(other.fed() + other_rest =~= other.0.fed() + (other.1.fed() + (other.2.fed() + (other.3.fed() + other_rest))));
        self.0.lemma_tells_apart(&other.0, (self.1.fed() + (self.2.fed() + (self.3.fed() + rest))), (other.1.fed() + (other.2.fed() + (other.3.fed() + other_rest))));
        self.1.lemma_tells_apart(&other.1, (self.2.fed() + (self.3.fed() + rest)), (other.2.fed() + (other.3.fed() + other_rest)));
        self.2.lemma_tells_apart(&other.2, (self.3.fed() + rest), (other.3.fed() + other_rest));
        self.3.lemma_tells_apart(&other.3, rest, other_rest);
    }
}

/// The words that the values feed, one after the other.
pub open spec fn fed_all<T: StableHash>(s: Seq<T>) -> Seq<Feed>
    decreases s.len(),
{
    if s.len() == 0 {
        Seq::empty()
    } else {
        s[0].fed() + fed_all(s.drop_first())
    }
}

/// The values are equal, place by place.
pub open spec fn same_all<T: StableHash>(a: Seq<T>, b: Seq<T>) -> bool {
    a.len() == b.len() && forall|i: int| 0 <= i < a.len() ==> (#[trigger] a[i]).same(&b[i])
}

/// Every length in the values is one that a machine has.
pub open spec fn all_fit<T: StableHash>(s: Seq<T>) -> bool {
    forall|i: int| 0 <= i < s.len() ==> (#[trigger] s[i]).fits()
}

proof fn lemma_fed_push<T: StableHash>(s: Seq<T>, value: T)
    ensures
        fed_all(s.push(value)) == fed_all(s) + value.fed(),
    decreases s.len(),
{
    let all = s.push(value);
    if s.len() == 0 {
        assert(fed_all(all.drop_first()) =~= Seq::empty());
        assert(fed_all(all) =~= value.fed());
        assert(fed_all(s) + value.fed() =~= value.fed());
    } else {
        assert(all.drop_first() =~= s.drop_first().push(value));
        lemma_fed_push(s.drop_first(), value);
        assert(fed_all(all) =~= s[0].fed() + (fed_all(s.drop_first()) + value.fed()));
        assert(fed_all(s) + value.fed() =~= s[0].fed() + (fed_all(s.drop_first()) + value.fed()));
    }
}

proof fn lemma_all_equal_feed<T: StableHash>(a: Seq<T>, b: Seq<T>)
    requires
        same_all(a, b),
    ensures
        fed_all(a) == fed_all(b),
    decreases a.len(),
{
    if a.len() > 0 {
        a[0].lemma_equal_feed(&b[0]);
        assert forall|i: int| 0 <= i < a.drop_first().len() implies (
        #[trigger] a.drop_first()[i]).same(&b.drop_first()[i]) by {
            assert(a[i + 1].same(&b[i + 1]));
        }
        lemma_all_equal_feed(a.drop_first(), b.drop_first());
    }
}

proof fn lemma_all_tell_apart<T: StableHash>(
    a: Seq<T>,
    b: Seq<T>,
    rest: Seq<Feed>,
    other_rest: Seq<Feed>,
)
    requires
        a.len() == b.len(),
        all_fit(a),
        all_fit(b),
        fed_all(a) + rest == fed_all(b) + other_rest,
    ensures
        same_all(a, b),
        rest == other_rest,
    decreases a.len(),
{
    if a.len() == 0 {
        assert(fed_all(a) + rest =~= rest);
        assert(fed_all(b) + other_rest =~= other_rest);
    } else {
        let mine = fed_all(a.drop_first()) + rest;
        let theirs = fed_all(b.drop_first()) + other_rest;
        assert(fed_all(a) + rest =~= a[0].fed() + mine);
        assert(fed_all(b) + other_rest =~= b[0].fed() + theirs);
        assert(a[0].fits() && b[0].fits());
        a[0].lemma_tells_apart(&b[0], mine, theirs);
        assert forall|i: int| 0 <= i < a.drop_first().len() implies (
        #[trigger] a.drop_first()[i]).fits() by {
            assert(a[i + 1].fits());
        }
        assert forall|i: int| 0 <= i < b.drop_first().len() implies (
        #[trigger] b.drop_first()[i]).fits() by {
            assert(b[i + 1].fits());
        }
        lemma_all_tell_apart(a.drop_first(), b.drop_first(), rest, other_rest);
        assert forall|i: int| 0 <= i < a.len() implies (#[trigger] a[i]).same(&b[i]) by {
            if i > 0 {
                assert(a.drop_first()[i - 1].same(&b.drop_first()[i - 1]));
            }
        }
    }
}

/// Feeds the elements of a slice, one after the other.
pub fn stable_hash_slice<T: StableHash, Hcx: StableHashCtxt>(
    slice: &[T],
    hcx: &mut Hcx,
    hasher: &mut StableHasher,
)
    ensures
        final(hasher)@ == old(hasher)@ + fed_all(slice@),
{
    let ghost before = hasher@;
    let mut i: usize = 0;
    assert(slice@.take(0) =~= Seq::empty());
    assert(before + fed_all(slice@.take(0)) =~= before);
    while i < slice.len()
        invariant
            i <= slice@.len(),
            hasher@ == before + fed_all(slice@.take(i as int)),
        decreases slice@.len() - i,
    {
        slice[i].stable_hash(hcx, hasher);
        proof {
            lemma_fed_push(slice@.take(i as int), slice@[i as int]);
            assert(slice@.take(i + 1) =~= slice@.take(i as int).push(slice@[i as int]));
            assert(hasher@ =~= before + fed_all(slice@.take(i + 1)));
        }
        i += 1;
    }
    assert(slice@.take(i as int) =~= slice@);
}

/// The words of a sequence: its length, and what its elements feed.
pub open spec fn fed_seq<T: StableHash>(s: Seq<T>) -> Seq<Feed> {
    seq![Feed::Usize(s.len() as u64)] + fed_all(s)
}

proof fn lemma_seqs_tell_apart<T: StableHash>(
    a: Seq<T>,
    b: Seq<T>,
    rest: Seq<Feed>,
    other_rest: Seq<Feed>,
)
    requires
        a.len() <= u64::MAX,
        b.len() <= u64::MAX,
        all_fit(a),
        all_fit(b),
        fed_seq(a) + rest == fed_seq(b) + other_rest,
    ensures
        same_all(a, b),
        rest == other_rest,
{
    let mine = fed_all(a) + rest;
    let theirs = fed_all(b) + other_rest;
    assert(fed_seq(a) + rest =~= seq![Feed::Usize(a.len() as u64)] + mine);
    assert(fed_seq(b) + other_rest =~= seq![Feed::Usize(b.len() as u64)] + theirs);
    lemma_first_word(Feed::Usize(a.len() as u64), Feed::Usize(b.len() as u64), mine, theirs);
    lemma_all_tell_apart(a, b, rest, other_rest);
}

fn stable_hash_seq<T: StableHash, Hcx: StableHashCtxt>(
    slice: &[T],
    hcx: &mut Hcx,
    hasher: &mut StableHasher,
)
    ensures
        final(hasher)@ == old(hasher)@ + fed_seq(slice@),
{
    slice.len().stable_hash(hcx, hasher);
    stable_hash_slice(slice, hcx, hasher);
    assert(hasher@ =~= old(hasher)@ + fed_seq(slice@));
}

impl<T: StableHash> StableHash for [T] {
    open spec fn fed(&self) -> Seq<Feed> {
        fed_seq(self@)
    }

    open spec fn same(&self, other: &Self) -> bool {
        same_all(self@, other@)
    }

    open spec fn fits(&self) -> bool {
        self@.len() <= u64::MAX && all_fit(self@)
    }

    fn stable_hash<Hcx: StableHashCtxt>(&self, hcx: &mut Hcx, hasher: &mut StableHasher) {
        stable_hash_seq(self, hcx, hasher);
    }

    proof fn lemma_equal_feed(&self, other: &Self) {
        lemma_all_equal_feed(self@, other@);
    }

    proof fn lemma_tells_apart(&self, other: &Self, rest: Seq<Feed>, other_rest: Seq<Feed>) {
        lemma_seqs_tell_apart(self@, other@, rest, other_rest);
    }
}

impl<T: StableHash> StableHash for Vec<T> {
    open spec fn fed(&self) -> Seq<Feed> {
        fed_seq(self@)
    }

    open spec fn same(&self, other: &Self) -> bool {
        same_all(self@, other@)
    }

    open spec fn fits(&self) -> bool {
        self@.len() <= u64::MAX && all_fit(self@)
    }

    fn stable_hash<Hcx: StableHashCtxt>(&self, hcx: &mut Hcx, hasher: &mut StableHasher) {
        stable_hash_seq(self.as_slice(), hcx, hasher);
    }

    proof fn lemma_equal_feed(&self, other: &Self) {
        lemma_all_equal_feed(self@, other@);
    }

    proof fn lemma_tells_apart(&self, other: &Self, rest: Seq<Feed>, other_rest: Seq<Feed>) {
        lemma_seqs_tell_apart(self@, other@, rest, other_rest);
    }
}

impl StableHash for str {
    open spec fn fed(&self) -> Seq<Feed> {
        fed_seq(encode_utf8(self@))
    }

    open spec fn same(&self, other: &Self) -> bool {
        self@ == other@
    }

    open spec fn fits(&self) -> bool {
        encode_utf8(self@).len() <= u64::MAX
    }

    fn stable_hash<Hcx: StableHashCtxt>(&self, hcx: &mut Hcx, hasher: &mut StableHasher) {
        stable_hash_seq(self.as_bytes(), hcx, hasher);
    }

    proof fn lemma_equal_feed(&self, other: &Self) {
    }

    proof fn lemma_tells_apart(&self, other: &Self, rest: Seq<Feed>, other_rest: Seq<Feed>) {
        let a = encode_utf8(self@);
        let b = encode_utf8(other@);
        lemma_seqs_tell_apart(a, b, rest, other_rest);
        assert(a =~= b) by {
            assert forall|i: int| 0 <= i < a.len() implies a[i] == b[i] by {
                assert(a[i].same(&b[i]));
            }
        }
        vstd::utf8::encode_utf8_decode_utf8(self@);
        vstd::utf8::encode_utf8_decode_utf8(other@);
    }
}

impl StableHash for String {
    open spec fn fed(&self) -> Seq<Feed> {
        fed_seq(encode_utf8(self@))
    }

    open spec fn same(&self, other: &Self) -> bool {
        self@ == other@
    }

    open spec fn fits(&self) -> bool {
        encode_utf8(self@).len() <= u64::MAX
    }

    fn stable_hash<Hcx: StableHashCtxt>(&self, hcx: &mut Hcx, hasher: &mut StableHasher) {
        stable_hash_seq(self.as_str().as_bytes(), hcx, hasher);
    }

    proof fn lemma_equal_feed(&self, other: &Self) {
    }

    proof fn lemma_tells_apart(&self, other: &Self, rest: Seq<Feed>, other_rest: Seq<Feed>) {
        let a = encode_utf8(self@);
        let b = encode_utf8(other@);
        lemma_seqs_tell_apart(a, b, rest, other_rest);
        assert(a =~= b) by {
            assert forall|i: int| 0 <= i < a.len() implies a[i] == b[i] by {
                assert(a[i].same(&b[i]));
            }
        }
        vstd::utf8::encode_utf8_decode_utf8(self@);
        vstd::utf8::encode_utf8_decode_utf8(other@);
    }
}

/// The word for how two values compare: minus one, nothing, or one.
pub open spec fn ordering_number(ordering: core::cmp::Ordering) -> i8 {
    match ordering {
        core::cmp::Ordering::Less => -1i8,
        core::cmp::Ordering::Equal => 0i8,
        core::cmp::Ordering::Greater => 1i8,
    }
}

/// Feeds how two values compare.
pub fn stable_hash_ordering(ordering: core::cmp::Ordering, hasher: &mut StableHasher)
    ensures
        final(hasher)@ == old(hasher)@.push(Feed::I8(ordering_number(ordering))),
{
    let number: i8 = match ordering {
        core::cmp::Ordering::Less => -1,
        core::cmp::Ordering::Equal => 0,
        core::cmp::Ordering::Greater => 1,
    };
    hasher.write(Feed::I8(number));
}

/// Feeds a map in its own order: its length, and each key with its value.
pub fn stable_hash_map<V: StableHash, Hcx: StableHashCtxt>(
    map: &IdMap<V>,
    hcx: &mut Hcx,
    hasher: &mut StableHasher,
)
    requires
        map.wf(),
    ensures
        final(hasher)@ == old(hasher)@ + fed_seq(map@),
{
    let ghost before = hasher@;
    let n = map.len();
    n.stable_hash(hcx, hasher);
    let mut i: usize = 0;
    assert(map@.take(0) =~= Seq::empty());
    assert(hasher@ =~= before + (seq![Feed::Usize(n as u64)] + fed_all(map@.take(0))));
    while i < n
        invariant
            i <= n,
            n == map@.len(),
            map.wf(),
            hasher@ == before + (seq![Feed::Usize(n as u64)] + fed_all(map@.take(i as int))),
        decreases n - i,
    {
        let (key, value) = map.at(i);
        key.stable_hash(hcx, hasher);
        value.stable_hash(hcx, hasher);
        proof {
            lemma_fed_push(map@.take(i as int), map@[i as int]);
            assert(map@.take(i + 1) =~= map@.take(i as int).push(map@[i as int]));
            assert(hasher@ =~= before + (seq![Feed::Usize(n as u64)] + fed_all(map@.take(i + 1))));
        }
        i += 1;
    }
    assert(map@.take(i as int) =~= map@);
}

/// `entries` are those of the map, by increasing key.
pub open spec fn lists_in_order<V>(map: Map<u64, V>, entries: Seq<(u64, V)>) -> bool {
    &&& entries.len() == map.dom().len()
    &&& forall|i: int, j: int|
        0 <= i < j < entries.len() ==> (#[trigger] entries[i]).0 < (#[trigger] entries[j]).0
    &&& forall|i: int|
        0 <= i < entries.len() ==> map.contains_key((#[trigger] entries[i]).0)
            && map[entries[i].0] == entries[i].1
}

proof fn lemma_increasing(keys: Seq<u64>)
    requires
        vstd::std_specs::btree::increasing_seq(keys),
    ensures
        forall|i: int, j: int| 0 <= i < j < keys.len() ==> #[trigger] keys[i] < #[trigger] keys[j],
{
    broadcast use vstd::std_specs::btree::group_btree_axioms;
    broadcast use vstd::laws_cmp::group_laws_cmp;

    assert forall|i: int, j: int| 0 <= i < j < keys.len() implies #[trigger] keys[i]
        < #[trigger] keys[j] by {
        assert(keys[i].cmp_spec(&keys[j]) is Less);
    }
}

/// Feeds a sorted map: its length, and each key with its value, by increasing key.
pub fn stable_hash_sorted_map<V: StableHash, Hcx: StableHashCtxt>(
    map: &BTreeMap<u64, V>,
    hcx: &mut Hcx,
    hasher: &mut StableHasher,
)
    ensures
        exists|entries: Seq<(u64, V)>| #[trigger]
            lists_in_order(map@, entries) && final(hasher)@ == old(hasher)@ + fed_seq(entries),
{
    broadcast use vstd::std_specs::btree::group_btree_axioms;

    let ghost before = hasher@;
    let n = map.len();
    n.stable_hash(hcx, hasher);
    let walk = map.iter();
    let ghost entries = walk.remaining().map_values(|kv: (&u64, &V)| (*kv.0, *kv.1));
    proof {
        let keys = walk.remaining().map_values(|kv: (&u64, &V)| *kv.0);
        lemma_increasing(keys);
        assert forall|i: int, j: int| 0 <= i < j < entries.len() implies (#[trigger] entries[i]).0
            < (#[trigger] entries[j]).0 by {
            assert(keys[i] == entries[i].0 && keys[j] == entries[j].0);
        }
        assert forall|i: int| 0 <= i < entries.len() implies map@.contains_key(
            (#[trigger] entries[i]).0,
        ) && map@[entries[i].0] == entries[i].1 by {
            assert(map@.contains_key(*walk.remaining()[i].0));
        }
        assert(lists_in_order(map@, entries));
    }
    assert(entries.take(0) =~= Seq::empty());
    assert(hasher@ =~= before + (seq![Feed::Usize(n as u64)] + fed_all(entries.take(0))));
    for kv in it: walk
        invariant
            it.seq().map_values(|kv: (&u64, &V)| (*kv.0, *kv.1)) == entries,
            hasher@ == before + (seq![Feed::Usize(n as u64)] + fed_all(
                entries.take(it.index() as int),
            )),
    {
        kv.0.stable_hash(hcx, hasher);
        kv.1.stable_hash(hcx, hasher);
        proof {
            let i = it.index() as int;
            assert(entries[i] == (*kv.0, *kv.1));
            lemma_fed_push(entries.take(i), entries[i]);
            assert(entries.take(i + 1) =~= entries.take(i).push(entries[i]));
            assert(hasher@ =~= before + (seq![Feed::Usize(n as u64)] + fed_all(
                entries.take(i + 1),
            )));
        }
    }
    proof {
        assert(entries.take(entries.len() as int) =~= entries);
    }
}

/// `members` are those of the set, in increasing order.
pub open spec fn members_in_order(set: Set<u64>, members: Seq<u64>) -> bool {
    &&& members.len() == set.len()
    &&& forall|i: int, j: int|
        0 <= i < j < members.len() ==> #[trigger] members[i] < #[trigger] members[j]
    &&& forall|i: int| 0 <= i < members.len() ==> set.contains(#[trigger] members[i])
}

/// Feeds a sorted set: its length, and each member, in increasing order.
pub fn stable_hash_sorted_set<Hcx: StableHashCtxt>(
    set: &BTreeSet<u64>,
    hcx: &mut Hcx,
    hasher: &mut StableHasher,
)
    ensures
        exists|members: Seq<u64>| #[trigger]
            members_in_order(set@, members) && final(hasher)@ == old(hasher)@ + fed_seq(members),
{
    broadcast use vstd::std_specs::btree::group_btree_axioms;

    let ghost before = hasher@;
    let n = set.len();
    n.stable_hash(hcx, hasher);
    let walk = set.iter();
    let ghost members = walk.remaining().unref();
    proof {
        lemma_references_increase(walk.remaining());
        assert forall|i: int| 0 <= i < members.len() implies set@.contains(
            #[trigger] members[i],
        ) by {
            assert(members.to_set().contains(members[i]));
        }
        assert(members_in_order(set@, members));
    }
    assert(members.take(0) =~= Seq::empty());
    assert(hasher@ =~= before + (seq![Feed::Usize(n as u64)] + fed_all(members.take(0))));
    for member in it: walk
        invariant
            it.seq().unref() == members,
            hasher@ == before + (seq![Feed::Usize(n as u64)] + fed_all(
                members.take(it.index() as int),
            )),
    {
        member.stable_hash(hcx, hasher);
        proof {
            let i = it.index() as int;
            assert(members[i] == *member);
            lemma_fed_push(members.take(i), members[i]);
            assert(members.take(i + 1) =~= members.take(i).push(members[i]));
            assert(hasher@ =~= before + (seq![Feed::Usize(n as u64)] + fed_all(
                members.take(i + 1),
            )));
        }
    }
    assert(members.take(members.len() as int) =~= members);
}

proof fn lemma_references_compare()
    ensures
        vstd::laws_cmp::obeys_cmp::<&u64>(),
{
    assert(vstd::laws_eq::obeys_eq::<&u64>()) by {
        reveal(vstd::laws_eq::obeys_eq_spec_properties);
    }
    assert(vstd::laws_cmp::obeys_cmp_partial_ord::<&u64>()) by {
        reveal(vstd::laws_cmp::obeys_cmp_partial_ord);
    }
    assert(vstd::laws_cmp::obeys_cmp_ord::<&u64>()) by {
        reveal(vstd::laws_cmp::obeys_cmp_ord);
    }
    assert(vstd::laws_cmp::obeys_partial_cmp_spec_properties::<&u64>()) by {
        reveal(vstd::laws_eq::obeys_eq_spec_properties);
        reveal(vstd::laws_cmp::obeys_partial_cmp_spec_properties);
    }
}

proof fn lemma_references_increase(keys: Seq<&u64>)
    requires
        vstd::std_specs::btree::increasing_seq(keys),
    ensures
        forall|i: int, j: int|
            0 <= i < j < keys.len() ==> #[trigger] keys.unref()[i] < #[trigger] keys.unref()[j],
{
    broadcast use vstd::std_specs::btree::group_btree_axioms;
    broadcast use vstd::laws_cmp::group_laws_cmp;

    lemma_references_compare();
    assert forall|i: int, j: int| 0 <= i < j < keys.len() implies #[trigger] keys.unref()[i]
        < #[trigger] keys.unref()[j] by {
        assert(OrdSpec::cmp_spec(&keys[i], &keys[j]) is Less);
    }
}

/// A value that has a key that is stable across sessions, by which maps are brought into an order.
pub trait ToStableHashKey {
    type KeyType: StableHash;

    fn to_stable_hash_key<Hcx: StableHashCtxt>(&self, hcx: &mut Hcx) -> Self::KeyType;
}

/// Which arena's addresses the address-keyed memos of stable hashes hold.
#[derive(Clone, Copy, Debug, PartialEq, Eq, Structural)]
pub struct AddressCaches {
    generation: u64,
}

impl AddressCaches {
    pub closed spec fn view(&self) -> u64 {
        self.generation
    }

    pub fn new() -> (caches: AddressCaches)
        ensures
            caches@ == 0,
    {
        AddressCaches { generation: 0 }
    }
}

/// The generation that a memo must have been filled in for its entries to be readable.
pub fn address_cache_generation(caches: &AddressCaches) -> (generation: u64)
    ensures
        generation == caches@,
{
    caches.generation
}

/// Retires every memo entry taken before now: an arena is about to hand out addresses that a dead
/// one used to own.
pub fn bump_address_cache_generation(caches: &mut AddressCaches)
    ensures
        final(caches)@ == bumped(old(caches)@),
{
    caches.generation = caches.generation.wrapping_add(1);
}

/// The next generation, round the largest one.
pub open spec fn bumped(generation: u64) -> u64 {
    if generation == u64::MAX {
        0
    } else {
        (generation + 1) as u64
    }
}

/// The generation after `n` arenas.
pub open spec fn bumped_by(generation: u64, n: nat) -> u64
    decreases n,
{
    if n == 0 {
        generation
    } else {
        bumped(bumped_by(generation, (n - 1) as nat))
    }
}

/// An entry taken before a bump is not readable after it, however many arenas came since, as long
/// as they are fewer than there are generations.
pub proof fn law_a_bump_retires_entries(generation: u64, n: nat)
    requires
        0 < n < 0x1_0000_0000_0000_0000,
    ensures
        bumped_by(generation, n) != generation,
{
    lemma_bumped_by(generation, n);
}

proof fn lemma_bumped_by(generation: u64, n: nat)
    requires
        n < 0x1_0000_0000_0000_0000,
    ensures
        bumped_by(generation, n) == (generation + n) % 0x1_0000_0000_0000_0000,
    decreases n,
{
    if n > 0 {
        lemma_bumped_by(generation, (n - 1) as nat);
    }
}

/// A number feeds one word, of its own width and with its own value.
pub proof fn law_a_number_feeds_itself(
    a: u8,
    b: u16,
    c: u32,
    d: u64,
    e: u128,
    f: i8,
    g: i16,
    h: i32,
    i: i64,
    j: i128,
)
    ensures
        a.fed() == seq![Feed::U8(a)],
        b.fed() == seq![Feed::U16(b)],
        c.fed() == seq![Feed::U32(c)],
        d.fed() == seq![Feed::U64(d)],
        e.fed() == seq![Feed::U128(e)],
        f.fed() == seq![Feed::I8(f)],
        g.fed() == seq![Feed::I16(g)],
        h.fed() == seq![Feed::I32(h)],
        i.fed() == seq![Feed::I64(i)],
        j.fed() == seq![Feed::I128(j)],
{
}

/// A number as wide as the machine feeds a word that is as wide on every machine; a character feeds
/// its number, a truth value zero or one, and nothing feeds nothing.
pub proof fn law_a_word_is_the_same_on_every_machine(n: usize, m: isize, c: char, yes: bool)
    ensures
        n.fed().len() == 1 && n.fed()[0] is Usize && n.fed()[0]->Usize_0 == n,
        m.fed().len() == 1 && m.fed()[0] is Isize && m.fed()[0]->Isize_0 == m,
        c.fed() == seq![Feed::U32(c as u32)],
        true.fed() == seq![Feed::U8(1)],
        false.fed() == seq![Feed::U8(0)],
        ().fed().len() == 0,
{
}

/// A value that may be missing feeds whether it is there, and then itself; a result feeds which of
/// the two it is, and then itself.
pub proof fn law_what_may_be_missing_says_so<T: StableHash, E: StableHash>(value: T, error: E)
    ensures
        Some(value).fed() == seq![Feed::U8(1)] + value.fed(),
        None::<T>.fed() == seq![Feed::U8(0)],
        Ok::<T, E>(value).fed() == seq![Feed::Isize(0)] + value.fed(),
        Err::<T, E>(error).fed() == seq![Feed::Isize(1)] + error.fed(),
{
}

/// Values in a row feed one after the other, in order, and more of them after their number.
pub proof fn law_values_feed_in_order<A: StableHash, B: StableHash, C: StableHash, D: StableHash>(
    a: A,
    b: B,
    c: C,
    d: D,
    list: Seq<A>,
)
    requires
        list.len() <= u64::MAX,
    ensures
        (a,).fed() == a.fed(),
        (a, b).fed() == a.fed() + b.fed(),
        (a, b, c).fed() == a.fed() + b.fed() + c.fed(),
        (a, b, c, d).fed() == a.fed() + b.fed() + c.fed() + d.fed(),
        fed_all(Seq::<A>::empty()).len() == 0,
        fed_all(list.push(a)) == fed_all(list) + a.fed(),
        fed_seq(list).len() > 0,
        fed_seq(list)[0] is Usize && fed_seq(list)[0]->Usize_0 == list.len(),
        fed_seq(list).drop_first() == fed_all(list),
{
    lemma_fed_push(list, a);
    assert(fed_seq(list).drop_first() =~= fed_all(list));
}

/// How values compare is fed as a number: less is minus one, equal is nothing, and greater is one.
pub proof fn law_a_comparison_feeds_its_sign(
    ordering: core::cmp::Ordering,
    hasher: &mut StableHasher,
)
    requires
        call_ensures(stable_hash_ordering, (ordering, hasher), ()),
    ensures
        ordering is Less ==> final(hasher)@ == old(hasher)@.push(Feed::I8(-1i8)),
        ordering is Equal ==> final(hasher)@ == old(hasher)@.push(Feed::I8(0)),
        ordering is Greater ==> final(hasher)@ == old(hasher)@.push(Feed::I8(1)),
{
}

} // verus!
