//! Diagnostics put aside for later: where they are kept, and the order in which a serial run would
//! have left them.

use vstd::prelude::*;

use crate::error_messages::span::Span;
use crate::id_map::distinct_ids;
use crate::id_map::has_id;
use crate::id_map::id_at;
use crate::id_map::id_place;
use crate::id_map::lemma_place_is_unique;
use crate::id_map::with_id;
use crate::id_map::without_id;
use crate::id_map::IdMap;

verus! {

/// Where from a diagnostic was put aside.
#[derive(Clone, Copy, PartialEq, Eq, Structural, Debug)]
pub enum StashKey {
    ItemNoType,
    UnderscoreForArrayLengths,
    EarlySyntaxWarning,
    CallIntoMethod,
    LifetimeIsChar,
    MaybeFruTypo,
    CallAssocMethod,
    AssociatedTypeSuggestion,
    UndeterminedMacroResolution,
    ExprInPat,
    GenericInFieldExpr,
    ReturnTypeNotation,
}

impl StashKey {
    /// The name of a key.
    pub open spec fn name(self) -> Seq<char> {
        match self {
            StashKey::ItemNoType => "ItemNoType"@,
            StashKey::UnderscoreForArrayLengths => "UnderscoreForArrayLengths"@,
            StashKey::EarlySyntaxWarning => "EarlySyntaxWarning"@,
            StashKey::CallIntoMethod => "CallIntoMethod"@,
            StashKey::LifetimeIsChar => "LifetimeIsChar"@,
            StashKey::MaybeFruTypo => "MaybeFruTypo"@,
            StashKey::CallAssocMethod => "CallAssocMethod"@,
            StashKey::AssociatedTypeSuggestion => "AssociatedTypeSuggestion"@,
            StashKey::UndeterminedMacroResolution => "UndeterminedMacroResolution"@,
            StashKey::ExprInPat => "ExprInPat"@,
            StashKey::GenericInFieldExpr => "GenericInFieldExpr"@,
            StashKey::ReturnTypeNotation => "ReturnTypeNotation"@,
        }
    }

    pub fn to_str(self) -> (name: &'static str)
        ensures
            name@ == self.name(),
    {
        match self {
            StashKey::ItemNoType => "ItemNoType",
            StashKey::UnderscoreForArrayLengths => "UnderscoreForArrayLengths",
            StashKey::EarlySyntaxWarning => "EarlySyntaxWarning",
            StashKey::CallIntoMethod => "CallIntoMethod",
            StashKey::LifetimeIsChar => "LifetimeIsChar",
            StashKey::MaybeFruTypo => "MaybeFruTypo",
            StashKey::CallAssocMethod => "CallAssocMethod",
            StashKey::AssociatedTypeSuggestion => "AssociatedTypeSuggestion",
            StashKey::UndeterminedMacroResolution => "UndeterminedMacroResolution",
            StashKey::ExprInPat => "ExprInPat",
            StashKey::GenericInFieldExpr => "GenericInFieldExpr",
            StashKey::ReturnTypeNotation => "ReturnTypeNotation",
        }
    }
}

/// The number that stands for a key.
pub open spec fn key_id(key: StashKey) -> u128 {
    match key {
        StashKey::ItemNoType => 0,
        StashKey::UnderscoreForArrayLengths => 1,
        StashKey::EarlySyntaxWarning => 2,
        StashKey::CallIntoMethod => 3,
        StashKey::LifetimeIsChar => 4,
        StashKey::MaybeFruTypo => 5,
        StashKey::CallAssocMethod => 6,
        StashKey::AssociatedTypeSuggestion => 7,
        StashKey::UndeterminedMacroResolution => 8,
        StashKey::ExprInPat => 9,
        StashKey::GenericInFieldExpr => 10,
        StashKey::ReturnTypeNotation => 11,
    }
}

fn number_of_key(key: StashKey) -> (id: u128)
    ensures
        id == key_id(key),
{
    match key {
        StashKey::ItemNoType => 0,
        StashKey::UnderscoreForArrayLengths => 1,
        StashKey::EarlySyntaxWarning => 2,
        StashKey::CallIntoMethod => 3,
        StashKey::LifetimeIsChar => 4,
        StashKey::MaybeFruTypo => 5,
        StashKey::CallAssocMethod => 6,
        StashKey::AssociatedTypeSuggestion => 7,
        StashKey::UndeterminedMacroResolution => 8,
        StashKey::ExprInPat => 9,
        StashKey::GenericInFieldExpr => 10,
        StashKey::ReturnTypeNotation => 11,
    }
}

/// The number that stands for a span, whatever item it belongs to.
pub open spec fn span_id(span: Span) -> u128 {
    (span.lo as int * 0x1_0000_0000_0000_0000 + span.hi as int * 0x1_0000_0000 + span.ctxt as int)
        as u128
}

fn number_of_span(span: Span) -> (id: u128)
    ensures
        id == span_id(span),
{
    (span.lo as u128) * 0x1_0000_0000_0000_0000 + (span.hi as u128) * 0x1_0000_0000
        + span.ctxt as u128
}

/// Keys have different numbers, and so have spans that differ in more than the item they belong
/// to.
pub proof fn law_numbers_tell_apart(k1: StashKey, k2: StashKey, s1: Span, s2: Span)
    ensures
        key_id(k1) == key_id(k2) <==> k1 == k2,
        span_id(s1) == span_id(s2) <==> s1.spec_without_parent() == s2.spec_without_parent(),
{
}

/// What is put aside: for each key, in the order of their first use, the spans and their values.
pub type Groups<V> = Seq<(u128, Seq<(u128, V)>)>;

/// What is put aside under `key`.
pub open spec fn group<V>(m: Groups<V>, key: u128) -> Seq<(u128, V)> {
    if has_id(m, key) {
        m[id_place(m, key)].1
    } else {
        Seq::empty()
    }
}

/// `m` with `value` put aside under `key` and `span`.
pub open spec fn put<V>(m: Groups<V>, key: u128, span: u128, value: V) -> Groups<V> {
    with_id(m, key, with_id(group(m, key), span, value))
}

/// `m` without what is put aside under `key` and `span`.
pub open spec fn taken<V>(m: Groups<V>, key: u128, span: u128) -> Groups<V> {
    if has_id(m, key) {
        m.update(id_place(m, key), (key, without_id(group(m, key), span)))
    } else {
        m
    }
}

/// What is put aside under `key` and `span`, if anything.
pub open spec fn found<V>(m: Groups<V>, key: u128, span: u128) -> Option<V> {
    if has_id(group(m, key), span) {
        Some(group(m, key)[id_place(group(m, key), span)].1)
    } else {
        None
    }
}

/// The values of one group, in order.
pub open spec fn values_of<V>(items: Seq<(u128, V)>) -> Seq<V> {
    items.map_values(|e: (u128, V)| e.1)
}

/// All values, group by group.
pub open spec fn all_values<V>(m: Groups<V>) -> Seq<V>
    decreases m.len(),
{
    if m.len() == 0 {
        Seq::empty()
    } else {
        all_values(m.drop_last()) + values_of(m.last().1)
    }
}

/// Neither keys nor the spans under one key occur twice.
pub open spec fn distinct_groups<V>(m: Groups<V>) -> bool {
    &&& distinct_ids(m)
    &&& forall|g: int| 0 <= g < m.len() ==> distinct_ids((#[trigger] m[g]).1)
}

/// Diagnostics put aside.
pub struct Stash<V> {
    groups: IdMap<IdMap<V>>,
}

impl<V> View for Stash<V> {
    type V = Groups<V>;

    closed spec fn view(&self) -> Groups<V> {
        self.groups@.map_values(|e: (u128, IdMap<V>)| (e.0, e.1@))
    }
}

impl<V> Stash<V> {
    pub closed spec fn wf(&self) -> bool {
        &&& self.groups.wf()
        &&& forall|g: int| 0 <= g < self.groups@.len() ==> (#[trigger] self.groups@[g]).1.wf()
    }

    pub proof fn lemma_distinct(&self)
        requires
            self.wf(),
        ensures
            distinct_groups(self@),
    {
        self.groups.lemma_distinct();
        assert forall|i: int, j: int| 0 <= i < j < self@.len() implies (#[trigger] self@[i]).0 != (
        #[trigger] self@[j]).0 by {
            assert(self.groups@[i].0 != self.groups@[j].0);
        }
        assert forall|g: int| 0 <= g < self@.len() implies distinct_ids((#[trigger] self@[g]).1) by {
            assert(self.groups@[g].1.wf());
            self.groups@[g].1.lemma_distinct();
        }
    }

    /// A key has the same place among the groups and among what they hold.
    proof fn lemma_places(&self, key: u128)
        requires
            self.wf(),
        ensures
            has_id(self.groups@, key) == has_id(self@, key),
            has_id(self@, key) ==> id_place(self.groups@, key) == id_place(self@, key) && id_at(
                self@,
                key,
                id_place(self@, key),
            ) && group(self@, key) == self.groups@[id_place(self@, key)].1@,
    {
        self.lemma_distinct();
        self.groups.lemma_distinct();
        if has_id(self.groups@, key) {
            let i = id_place(self.groups@, key);
            assert(id_at(self.groups@, key, i));
            assert(id_at(self@, key, i));
            lemma_place_is_unique(self@, key, i);
        }
        if has_id(self@, key) {
            let i = id_place(self@, key);
            assert(id_at(self@, key, i));
            assert(id_at(self.groups@, key, i));
        }
    }

    pub fn new() -> (stash: Stash<V>)
        ensures
            stash.wf(),
            stash@ == Seq::<(u128, Seq<(u128, V)>)>::empty(),
    {
        let stash = Stash { groups: IdMap::new() };
        assert(stash@ =~= Seq::<(u128, Seq<(u128, V)>)>::empty());
        stash
    }

    pub fn is_empty(&self) -> (yes: bool)
        requires
            self.wf(),
        ensures
            yes == (self@.len() == 0),
    {
        self.groups.len() == 0
    }

    /// Puts `value` aside under `key` and `span`.
    pub fn insert(&mut self, key: StashKey, span: Span, value: V)
        requires
            old(self).wf(),
        ensures
            final(self).wf(),
            final(self)@ == put(old(self)@, key_id(key), span_id(span), value),
    {
        let ghost before = *self;
        let k = number_of_key(key);
        proof {
            self.lemma_places(k);
        }
        match self.groups.position(k) {
            Some(at) => {
                assert(before.groups@[at as int].1.wf());
                let inner = self.groups.value_mut(at);
                inner.insert(number_of_span(span), value);
                proof {
                    assert(self@ =~= put(before@, k, span_id(span), value));
                }
            },
            None => {
                let mut inner: IdMap<V> = IdMap::new();
                inner.insert(number_of_span(span), value);
                self.groups.insert(k, inner);
                proof {
                    assert(group(before@, k) =~= Seq::<(u128, V)>::empty());
                    assert(self@ =~= put(before@, k, span_id(span), value));
                }
            },
        }
    }

    /// Takes what is put aside under `key` and `span`.
    pub fn remove(&mut self, key: StashKey, span: Span) -> (value: Option<V>)
        requires
            old(self).wf(),
        ensures
            final(self).wf(),
            final(self)@ == taken(old(self)@, key_id(key), span_id(span)),
            value == found(old(self)@, key_id(key), span_id(span)),
    {
        self.remove_ids(number_of_key(key), number_of_span(span))
    }

    fn remove_ids(&mut self, k: u128, s: u128) -> (value: Option<V>)
        requires
            old(self).wf(),
        ensures
            final(self).wf(),
            final(self)@ == taken(old(self)@, k, s),
            value == found(old(self)@, k, s),
    {
        let ghost before = *self;
        proof {
            self.lemma_places(k);
        }
        match self.groups.position(k) {
            Some(at) => {
                assert(before.groups@[at as int].1.wf());
                let inner = self.groups.value_mut(at);
                let value = inner.swap_remove(s);
                proof {
                    assert(self@ =~= taken(before@, k, s));
                }
                value
            },
            None => {
                assert(group(before@, k) =~= Seq::<(u128, V)>::empty());
                None
            },
        }
    }

    /// Whether anything is put aside under `key` and `span`.
    pub fn contains(&self, key: StashKey, span: Span) -> (yes: bool)
        requires
            self.wf(),
        ensures
            yes == (found(self@, key_id(key), span_id(span)) is Some),
    {
        let k = number_of_key(key);
        proof {
            self.lemma_places(k);
        }
        match self.groups.position(k) {
            Some(at) => {
                assert(self.groups@[at as int].1.wf());
                let entry = self.groups.at(at);
                entry.1.contains(number_of_span(span))
            },
            None => {
                assert(group(self@, k) =~= Seq::<(u128, V)>::empty());
                false
            },
        }
    }
}

impl<V> Stash<V> {
    /// How many keys have been used.
    pub fn group_count(&self) -> (n: usize)
        requires
            self.wf(),
        ensures
            n == self@.len(),
    {
        self.groups.len()
    }

    /// How many values are put aside in group `g`.
    pub fn group_len(&self, g: usize) -> (n: usize)
        requires
            self.wf(),
            g < self@.len(),
        ensures
            n == self@[g as int].1.len(),
    {
        assert(self.groups@[g as int].1.wf());
        let entry = self.groups.at(g);
        entry.1.len()
    }

    /// Value `i` of group `g`.
    pub fn value_at(&self, g: usize, i: usize) -> (value: &V)
        requires
            self.wf(),
            g < self@.len(),
            i < self@[g as int].1.len(),
        ensures
            *value == self@[g as int].1[i as int].1,
    {
        assert(self.groups@[g as int].1.wf());
        let entry = self.groups.at(g);
        entry.1.at(i).1
    }

    /// All values, group by group.
    pub fn into_values(self) -> (values: Vec<V>)
        requires
            self.wf(),
        ensures
            values@ == all_values(self@),
    {
        let ghost m = self@;
        let ghost groups = self.groups@;
        let mut rest = self.groups.into_values();
        let mut out: Vec<V> = Vec::new();
        let ghost mut done: int = 0;
        assert(m.take(0) =~= Seq::<(u128, Seq<(u128, V)>)>::empty());
        assert(rest@ =~= groups.map_values(|e: (u128, IdMap<V>)| e.1));
        while rest.len() > 0
            invariant
                0 <= done <= m.len(),
                rest@.len() == m.len() - done,
                m.len() == groups.len(),
                forall|g: int| 0 <= g < groups.len() ==> (#[trigger] groups[g]).1.wf(),
                forall|g: int| 0 <= g < groups.len() ==> (#[trigger] groups[g]).1@ == m[g].1,
                forall|k: int| 0 <= k < rest@.len() ==> rest@[k] == (#[trigger] groups[done + k]).1,
                out@ == all_values(m.take(done)),
            decreases rest@.len(),
        {
            let ghost before = rest@;
            let inner = rest.remove(0);
            assert(before[0] == groups[done + 0].1);
            let mut values = inner.into_values();
            proof {
                assert(m.take(done + 1).drop_last() =~= m.take(done));
                assert(m.take(done + 1).last() == m[done]);
                assert(values@ =~= values_of(m[done].1));
            }
            out.append(&mut values);
            proof {
                assert forall|k: int| 0 <= k < rest@.len() implies rest@[k] == (
                #[trigger] groups[(done + 1) + k]).1 by {
                    assert(rest@[k] == before[k + 1]);
                    assert(before[k + 1] == groups[done + (k + 1)].1);
                }
                done = done + 1;
            }
        }
        assert(m.take(done) =~= m);
        out
    }
}

/// One change to what is put aside.
#[derive(Clone, Copy)]
pub enum StashOp {
    Insert(StashKey, Span),
    Remove(StashKey, Span),
}

/// The keys and spans of `m`, in order, without the values.
pub open spec fn shape_of<V>(m: Groups<V>) -> Groups<()> {
    m.map_values(
        |e: (u128, Seq<(u128, V)>)| (e.0, e.1.map_values(|x: (u128, V)| (x.0, ()))),
    )
}

/// The shape after one change.
pub open spec fn reshaped(shape: Groups<()>, op: StashOp) -> Groups<()> {
    match op {
        StashOp::Insert(key, span) => put(shape, key_id(key), span_id(span), ()),
        StashOp::Remove(key, span) => taken(shape, key_id(key), span_id(span)),
    }
}

/// The shape after a list of changes.
pub open spec fn reshaped_all(shape: Groups<()>, ops: Seq<StashOp>) -> Groups<()>
    decreases ops.len(),
{
    if ops.len() == 0 {
        shape
    } else {
        reshaped(reshaped_all(shape, ops.drop_last()), ops.last())
    }
}

/// The values of `live` at the spans of one group of a shape, in its order; a span that is not put
/// aside any more has none.
pub open spec fn found_in_group<V>(
    live: Groups<V>,
    key: u128,
    spans: Seq<(u128, ())>,
) -> Seq<V>
    decreases spans.len(),
{
    if spans.len() == 0 {
        Seq::empty()
    } else {
        found_in_group(live, key, spans.drop_last()) + (match found(live, key, spans.last().0) {
            Some(value) => seq![value],
            None => Seq::empty(),
        })
    }
}

/// The values of `live` in the order of a shape.
pub open spec fn found_in_order<V>(live: Groups<V>, shape: Groups<()>) -> Seq<V>
    decreases shape.len(),
{
    if shape.len() == 0 {
        Seq::empty()
    } else {
        found_in_order(live, shape.drop_last()) + found_in_group(
            live,
            shape.last().0,
            shape.last().1,
        )
    }
}

/// What it takes to emit the diagnostics that were put aside in the order in which a serial run
/// would: the shape of the stash before any item ran in parallel, and every change since, in
/// serial order.
pub struct StashReplay {
    base: Stash<()>,
    log: Vec<StashOp>,
}

impl StashReplay {
    pub closed spec fn wf(&self) -> bool {
        self.base.wf()
    }

    pub closed spec fn base(&self) -> Groups<()> {
        self.base@
    }

    pub closed spec fn log(&self) -> Seq<StashOp> {
        self.log@
    }

    /// Starts a log from the shape of `stash`.
    pub fn begin<V>(stash: &Stash<V>) -> (replay: StashReplay)
        requires
            stash.wf(),
        ensures
            replay.wf(),
            replay.base() == shape_of(stash@),
            replay.log() == Seq::<StashOp>::empty(),
    {
        StashReplay { base: stash.shape(), log: Vec::new() }
    }

    pub fn record(&mut self, op: StashOp)
        requires
            old(self).wf(),
        ensures
            final(self).wf(),
            final(self).base() == old(self).base(),
            final(self).log() == old(self).log().push(op),
    {
        self.log.push(op);
    }
}

impl<V> Stash<V> {
    /// The keys and spans, in order, without the values.
    fn shape(&self) -> (shape: Stash<()>)
        requires
            self.wf(),
        ensures
            shape.wf(),
            shape@ == shape_of(self@),
    {
        let mut groups: IdMap<IdMap<()>> = IdMap::new();
        let mut g: usize = 0;
        let ghost want = shape_of(self@);
        proof {
            self.lemma_distinct();
        }
        while g < self.groups.len()
            invariant
                self.wf(),
                distinct_groups(self@),
                g <= self.groups@.len(),
                want == shape_of(self@),
                groups.wf(),
                groups@.len() == g,
                forall|k: int|
                    0 <= k < g ==> {
                        &&& (#[trigger] groups@[k]).1.wf()
                        &&& groups@[k].0 == want[k].0
                        &&& groups@[k].1@ == want[k].1
                    },
            decreases self.groups@.len() - g,
        {
            assert(self.groups@[g as int].1.wf());
            let entry = self.groups.at(g);
            assert(self@[g as int] == (entry.0, entry.1@));
            let keys = copy_keys(entry.1);
            let ghost before = groups@;
            assert(!has_id(groups@, entry.0)) by {
                if has_id(groups@, entry.0) {
                    let k = choose|k: int| id_at(groups@, entry.0, k);
                    assert(groups@[k].0 == want[k].0);
                    assert(self@[k].0 != self@[g as int].0);
                }
            }
            groups.insert(entry.0, keys);
            assert(groups@ =~= before.push((entry.0, keys)));
            assert(keys@ =~= want[g as int].1);
            g += 1;
        }
        let shape = Stash { groups };
        assert(shape@ =~= want);
        shape
    }
}

/// The keys of `m`, in order.
fn copy_keys<V>(m: &IdMap<V>) -> (keys: IdMap<()>)
    requires
        m.wf(),
    ensures
        keys.wf(),
        keys@ == m@.map_values(|x: (u128, V)| (x.0, ())),
{
    let mut keys: IdMap<()> = IdMap::new();
    let mut i: usize = 0;
    let ghost want = m@.map_values(|x: (u128, V)| (x.0, ()));
    proof {
        m.lemma_distinct();
    }
    while i < m.len()
        invariant
            m.wf(),
            distinct_ids(m@),
            i <= m@.len(),
            want == m@.map_values(|x: (u128, V)| (x.0, ())),
            keys.wf(),
            keys@ == want.take(i as int),
        decreases m@.len() - i,
    {
        let entry = m.at(i);
        assert(!has_id(keys@, entry.0)) by {
            if has_id(keys@, entry.0) {
                let k = choose|k: int| id_at(keys@, entry.0, k);
                assert(m@[k].0 != m@[i as int].0);
            }
        }
        keys.insert(entry.0, ());
        i += 1;
        assert(keys@ =~= want.take(i as int));
    }
    assert(keys@ =~= want);
    keys
}

/// Taking one value leaves what is put aside elsewhere.
proof fn lemma_taking_leaves_the_rest<V>(m: Groups<V>, k: u128, s: u128, k2: u128, s2: u128)
    requires
        distinct_groups(m),
        k != k2 || s != s2,
    ensures
        found(taken(m, k, s), k2, s2) == found(m, k2, s2),
{
    let after = taken(m, k, s);
    if has_id(m, k) {
        let p = id_place(m, k);
        assert(id_at(m, k, p));
        assert forall|i: int, j: int| 0 <= i < j < after.len() implies (#[trigger] after[i]).0 != (
        #[trigger] after[j]).0 by {
            assert(m[i].0 != m[j].0);
        }
        if has_id(m, k2) {
            let q = id_place(m, k2);
            assert(id_at(m, k2, q));
            assert(id_at(after, k2, q));
            lemma_place_is_unique(after, k2, q);
            lemma_place_is_unique(m, k2, q);
            if k == k2 {
                lemma_removing_leaves_the_rest(group(m, k), s, s2);
            }
        } else {
            assert(!has_id(after, k2)) by {
                if has_id(after, k2) {
                    let q = choose|q: int| id_at(after, k2, q);
                    assert(id_at(m, k2, q));
                }
            }
        }
    }
}

proof fn lemma_removing_leaves_the_rest<V>(items: Seq<(u128, V)>, s: u128, s2: u128)
    requires
        distinct_ids(items),
        s != s2,
    ensures
        has_id(without_id(items, s), s2) == has_id(items, s2),
        has_id(items, s2) ==> without_id(items, s)[id_place(without_id(items, s), s2)].1
            == items[id_place(items, s2)].1,
{
    let after = without_id(items, s);
    if has_id(items, s) {
        let p = id_place(items, s);
        assert(id_at(items, s, p));
        let n = items.len() - 1;
        assert forall|i: int, j: int| 0 <= i < j < after.len() implies (#[trigger] after[i]).0 != (
        #[trigger] after[j]).0 by {
            let x = if i == p { n } else { i };
            let y = if j == p { n } else { j };
            if x < y {
                assert(items[x].0 != items[y].0);
            } else {
                assert(items[y].0 != items[x].0);
            }
        }
        if has_id(items, s2) {
            let q = id_place(items, s2);
            assert(id_at(items, s2, q));
            let r = if q == n { p } else { q };
            assert(id_at(after, s2, r));
            lemma_place_is_unique(after, s2, r);
        }
        if has_id(after, s2) {
            let r = id_place(after, s2);
            assert(id_at(after, s2, r));
            let q = if r == p { n } else { r };
            assert(id_at(items, s2, q));
        }
    }
}

/// The pair of `k` and `s` stands in `shape` before place `i` of group `g`.
spec fn seen(shape: Groups<()>, g: int, i: int, k: u128, s: u128) -> bool {
    exists|a: int, b: int|
        {
            &&& 0 <= a < shape.len()
            &&& 0 <= b < shape[a].1.len()
            &&& a < g || (a == g && b < i)
            &&& (#[trigger] shape[a].1[b]).0 == s
            &&& shape[a].0 == k
        }
}

impl StashReplay {
    /// The values of `stash`, in the order in which a serial run would have left them.
    ///
    /// A value that the log never placed is left out: it was put aside by an item that a serial
    /// run never ran.
    pub fn in_serial_order<V>(self, stash: Stash<V>) -> (out: Vec<V>)
        requires
            self.wf(),
            stash.wf(),
        ensures
            out@ == found_in_order(stash@, reshaped_all(self.base(), self.log())),
    {
        let ghost live0 = stash@;
        let ghost base = self.base@;
        let log = self.log;
        let mut shape = self.base;
        let mut n: usize = 0;
        assert(log@.take(0) =~= Seq::<StashOp>::empty());
        while n < log.len()
            invariant
                n <= log@.len(),
                shape.wf(),
                shape@ == reshaped_all(base, log@.take(n as int)),
            decreases log@.len() - n,
        {
            assert(log@.take(n + 1).drop_last() =~= log@.take(n as int));
            match log[n] {
                StashOp::Insert(key, span) => {
                    shape.insert(key, span, ());
                },
                StashOp::Remove(key, span) => {
                    let _ = shape.remove(key, span);
                },
            }
            n += 1;
        }
        assert(log@.take(n as int) =~= log@);
        let mut live = stash;
        let mut out: Vec<V> = Vec::new();
        let mut g: usize = 0;
        proof {
            shape.lemma_distinct();
        }
        assert(shape@.take(0) =~= Seq::<(u128, Seq<(u128, ())>)>::empty());
        while g < shape.groups.len()
            invariant
                shape.wf(),
                distinct_groups(shape@),
                live.wf(),
                shape@.len() == shape.groups@.len(),
                g <= shape@.len(),
                out@ == found_in_order(live0, shape@.take(g as int)),
                forall|k: u128, s: u128|
                    !seen(shape@, g as int, 0, k, s) ==> #[trigger] found(live@, k, s) == found(
                        live0,
                        k,
                        s,
                    ),
            decreases shape@.len() - g,
        {
            assert(shape.groups@[g as int].1.wf());
            let entry = shape.groups.at(g);
            let key = entry.0;
            let ghost spans = shape@[g as int].1;
            let ghost before = out@;
            assert(shape@[g as int] == (key, entry.1@));
            let mut i: usize = 0;
            assert(spans.take(0) =~= Seq::<(u128, ())>::empty());
            assert(out@ =~= before + found_in_group(live0, key, spans.take(0)));
            while i < entry.1.len()
                invariant
                    shape.wf(),
                    distinct_groups(shape@),
                    live.wf(),
                    g < shape@.len(),
                    entry.1.wf(),
                    spans == shape@[g as int].1,
                    key == shape@[g as int].0,
                    entry.0 == key,
                    entry.1@ == spans,
                    i <= spans.len(),
                    out@ == before + found_in_group(live0, key, spans.take(i as int)),
                    forall|k: u128, s: u128|
                        !seen(shape@, g as int, i as int, k, s) ==> #[trigger] found(live@, k, s)
                            == found(live0, k, s),
                decreases spans.len() - i,
            {
                let span = entry.1.at(i).0;
                let ghost prior = live@;
                proof {
                    live.lemma_distinct();
                    assert(spans.take(i + 1).drop_last() =~= spans.take(i as int));
                    assert(spans.take(i + 1).last() == spans[i as int]);
                    lemma_not_seen_yet(shape@, g as int, i as int);
                    assert(found(live@, key, span) == found(live0, key, span));
                }
                match live.remove_ids(key, span) {
                    Some(value) => {
                        out.push(value);
                    },
                    None => {},
                }
                proof {
                    assert forall|k: u128, s: u128|
                        !seen(shape@, g as int, i + 1, k, s) implies #[trigger] found(live@, k, s)
                        == found(live0, k, s) by {
                        if k == key && s == span {
                            assert(shape@[g as int].1[i as int].0 == s);
                            assert(seen(shape@, g as int, i + 1, k, s));
                        }
                        if seen(shape@, g as int, i as int, k, s) {
                            lemma_seen_grows(shape@, g as int, i as int, k, s);
                        }
                        lemma_taking_leaves_the_rest(prior, key, span, k, s);
                        assert(found(prior, k, s) == found(live0, k, s));
                    }
                }
                i += 1;
                assert(out@ =~= before + found_in_group(live0, key, spans.take(i as int)));
            }
            proof {
                assert(spans.take(i as int) =~= spans);
                assert(shape@.take(g + 1).drop_last() =~= shape@.take(g as int));
                assert(shape@.take(g + 1).last() == shape@[g as int]);
                assert forall|k: u128, s: u128|
                    !seen(shape@, g + 1, 0, k, s) implies #[trigger] found(live@, k, s) == found(
                    live0,
                    k,
                    s,
                ) by {
                    if seen(shape@, g as int, i as int, k, s) {
                        let (a, b) = choose|a: int, b: int|
                            {
                                &&& 0 <= a < shape@.len()
                                &&& 0 <= b < shape@[a].1.len()
                                &&& a < g || (a == g && b < i)
                                &&& (#[trigger] shape@[a].1[b]).0 == s
                                &&& shape@[a].0 == k
                            };
                        assert(shape@[a].1[b].0 == s);
                        assert(seen(shape@, g + 1, 0, k, s));
                    }
                }
            }
            g += 1;
        }
        assert(shape@.take(g as int) =~= shape@);
        out
    }
}

proof fn lemma_not_seen_yet(shape: Groups<()>, g: int, i: int)
    requires
        distinct_groups(shape),
        0 <= g < shape.len(),
        0 <= i < shape[g].1.len(),
    ensures
        !seen(shape, g, i, shape[g].0, shape[g].1[i].0),
{
    let k = shape[g].0;
    let s = shape[g].1[i].0;
    if seen(shape, g, i, k, s) {
        let (a, b) = choose|a: int, b: int|
            {
                &&& 0 <= a < shape.len()
                &&& 0 <= b < shape[a].1.len()
                &&& a < g || (a == g && b < i)
                &&& (#[trigger] shape[a].1[b]).0 == s
                &&& shape[a].0 == k
            };
        if a < g {
            assert(shape[a].0 != shape[g].0);
        } else {
            assert(shape[g].1[b].0 != shape[g].1[i].0);
        }
    }
}

proof fn lemma_seen_grows(shape: Groups<()>, g: int, i: int, k: u128, s: u128)
    requires
        seen(shape, g, i, k, s),
    ensures
        seen(shape, g, i + 1, k, s),
{
    let (a, b) = choose|a: int, b: int|
        {
            &&& 0 <= a < shape.len()
            &&& 0 <= b < shape[a].1.len()
            &&& a < g || (a == g && b < i)
            &&& (#[trigger] shape[a].1[b]).0 == s
            &&& shape[a].0 == k
        };
    assert(shape[a].1[b].0 == s);
}

/// The shape of one group has the same places.
proof fn lemma_shape_of_group<V>(items: Seq<(u128, V)>, span: u128)
    requires
        distinct_ids(items),
    ensures
        ({
            let shape = items.map_values(|x: (u128, V)| (x.0, ()));
            &&& distinct_ids(shape)
            &&& has_id(shape, span) == has_id(items, span)
            &&& has_id(items, span) ==> id_place(shape, span) == id_place(items, span) && id_at(
                items,
                span,
                id_place(items, span),
            )
        }),
{
    let shape = items.map_values(|x: (u128, V)| (x.0, ()));
    assert forall|i: int, j: int| 0 <= i < j < shape.len() implies (#[trigger] shape[i]).0 != (
    #[trigger] shape[j]).0 by {
        assert(items[i].0 != items[j].0);
    }
    if has_id(items, span) {
        let i = id_place(items, span);
        assert(id_at(items, span, i));
        assert(id_at(shape, span, i));
        lemma_place_is_unique(shape, span, i);
    }
    if has_id(shape, span) {
        let i = id_place(shape, span);
        assert(id_at(shape, span, i));
        assert(id_at(items, span, i));
    }
}

/// The shape has the same groups at the same places.
proof fn lemma_shape_of_groups<V>(m: Groups<V>, key: u128)
    requires
        distinct_groups(m),
    ensures
        distinct_groups(shape_of(m)),
        has_id(shape_of(m), key) == has_id(m, key),
        has_id(m, key) ==> id_place(shape_of(m), key) == id_place(m, key) && id_at(
            m,
            key,
            id_place(m, key),
        ),
        group(shape_of(m), key) == group(m, key).map_values(|x: (u128, V)| (x.0, ())),
{
    let shape = shape_of(m);
    assert forall|i: int, j: int| 0 <= i < j < shape.len() implies (#[trigger] shape[i]).0 != (
    #[trigger] shape[j]).0 by {
        assert(m[i].0 != m[j].0);
    }
    assert forall|g: int| 0 <= g < shape.len() implies distinct_ids((#[trigger] shape[g]).1) by {
        assert(distinct_ids(m[g].1));
        lemma_shape_of_group(m[g].1, 0);
    }
    if has_id(m, key) {
        let i = id_place(m, key);
        assert(id_at(m, key, i));
        assert(id_at(shape, key, i));
        lemma_place_is_unique(shape, key, i);
    }
    if has_id(shape, key) {
        let i = id_place(shape, key);
        assert(id_at(shape, key, i));
        assert(id_at(m, key, i));
    }
    assert(group(shape, key) =~= group(m, key).map_values(|x: (u128, V)| (x.0, ())));
}

/// The shape of a stash follows its changes: replaying the changes on the shape gives the shape of
/// the changed stash.
pub proof fn law_the_shape_follows_the_stash<V>(m: Groups<V>, key: u128, span: u128, value: V)
    requires
        distinct_groups(m),
    ensures
        shape_of(put(m, key, span, value)) == put(shape_of(m), key, span, ()),
        shape_of(taken(m, key, span)) == taken(shape_of(m), key, span),
{
    lemma_shape_of_groups(m, key);
    let items = group(m, key);
    assert(distinct_ids(items)) by {
        if has_id(m, key) {
            assert(distinct_ids(m[id_place(m, key)].1));
        }
    }
    lemma_shape_of_group(items, span);
    let thin = |x: (u128, V)| (x.0, ());
    assert(with_id(items, span, value).map_values(thin) =~= with_id(
        items.map_values(thin),
        span,
        (),
    ));
    assert(without_id(items, span).map_values(thin) =~= without_id(
        items.map_values(thin),
        span,
    ));
    assert(shape_of(put(m, key, span, value)) =~= put(shape_of(m), key, span, ()));
    assert(shape_of(taken(m, key, span)) =~= taken(shape_of(m), key, span));
}

/// Where the replayed changes are those the stash itself went through, the serial order is the
/// order of the stash: nothing is left out and nothing moves.
pub proof fn law_a_serial_stash_keeps_its_order<V>(m: Groups<V>)
    requires
        distinct_groups(m),
    ensures
        found_in_order(m, shape_of(m)) == all_values(m),
{
    lemma_prefix_in_order(m, m.len() as int);
    assert(m.take(m.len() as int) =~= m);
    assert(shape_of(m).take(m.len() as int) =~= shape_of(m));
}

proof fn lemma_prefix_in_order<V>(m: Groups<V>, n: int)
    requires
        distinct_groups(m),
        0 <= n <= m.len(),
    ensures
        found_in_order(m, shape_of(m).take(n)) == all_values(m.take(n)),
    decreases n,
{
    if n > 0 {
        lemma_prefix_in_order(m, n - 1);
        let shape = shape_of(m);
        assert(m.take(n).drop_last() =~= m.take(n - 1));
        assert(shape.take(n).drop_last() =~= shape.take(n - 1));
        assert(shape.take(n).last() == shape[n - 1]);
        assert(m.take(n).last() == m[n - 1]);
        let items = m[n - 1].1;
        lemma_group_in_order(m, n - 1, items.len() as int);
        assert(items.take(items.len() as int) =~= items);
        assert(shape[n - 1].1.take(items.len() as int) =~= shape[n - 1].1);
    } else {
        assert(m.take(0) =~= Seq::<(u128, Seq<(u128, V)>)>::empty());
        assert(shape_of(m).take(0) =~= Seq::<(u128, Seq<(u128, ())>)>::empty());
    }
}

proof fn lemma_group_in_order<V>(m: Groups<V>, g: int, n: int)
    requires
        distinct_groups(m),
        0 <= g < m.len(),
        0 <= n <= m[g].1.len(),
    ensures
        found_in_group(m, m[g].0, shape_of(m)[g].1.take(n)) == values_of(m[g].1.take(n)),
    decreases n,
{
    let items = m[g].1;
    let spans = shape_of(m)[g].1;
    if n > 0 {
        lemma_group_in_order(m, g, n - 1);
        assert(spans.take(n).drop_last() =~= spans.take(n - 1));
        assert(spans.take(n).last() == spans[n - 1]);
        assert(id_at(m, m[g].0, g));
        lemma_place_is_unique(m, m[g].0, g);
        assert(group(m, m[g].0) == items);
        assert(distinct_ids(m[g].1));
        assert(id_at(items, items[n - 1].0, n - 1));
        lemma_place_is_unique(items, items[n - 1].0, n - 1);
        assert(values_of(items.take(n)) =~= values_of(items.take(n - 1)).push(items[n - 1].1));
        assert(values_of(items.take(n - 1)).push(items[n - 1].1) =~= values_of(
            items.take(n - 1),
        ) + seq![items[n - 1].1]);
    } else {
        assert(spans.take(0) =~= Seq::<(u128, ())>::empty());
        assert(values_of(items.take(0)) =~= Seq::<V>::empty());
    }
}

proof fn lemma_group_after<V>(m: Groups<V>, key: u128, items: Seq<(u128, V)>, k: u128)
    requires
        distinct_groups(m),
    ensures
        k != key ==> group(with_id(m, key, items), k) == group(m, k),
        group(with_id(m, key, items), key) == items,
        distinct_ids(with_id(m, key, items)),
{
    crate::id_map::law_an_entry_is_found(m, key, items, k);
    let after = with_id(m, key, items);
    let i = choose|i: int| 0 <= i < after.len() && after[i] == (key, items);
    assert(id_at(after, key, i));
    lemma_place_is_unique(after, key, i);
    if k != key && has_id(m, k) {
        let j = id_place(m, k);
        assert(id_at(m, k, j));
        assert(after[j] == m[j]);
        assert(id_at(after, k, j));
        lemma_place_is_unique(after, k, j);
    }
}

proof fn lemma_found_after_with<V>(items: Seq<(u128, V)>, span: u128, value: V, s: u128)
    requires
        distinct_ids(items),
    ensures
        ({
            let after = with_id(items, span, value);
            &&& has_id(after, span) && after[id_place(after, span)].1 == value
            &&& s != span ==> has_id(after, s) == has_id(items, s)
            &&& s != span && has_id(items, s) ==> after[id_place(after, s)].1 == items[id_place(
                items,
                s,
            )].1
            &&& distinct_ids(after)
        }),
{
    crate::id_map::law_an_entry_is_found(items, span, value, s);
    let after = with_id(items, span, value);
    let i = choose|i: int| 0 <= i < after.len() && after[i] == (span, value);
    assert(id_at(after, span, i));
    lemma_place_is_unique(after, span, i);
    if s != span && has_id(items, s) {
        let j = id_place(items, s);
        assert(id_at(items, s, j));
        assert(after[j] == items[j]);
        assert(id_at(after, s, j));
        lemma_place_is_unique(after, s, j);
    }
}

proof fn lemma_found_after_without<V>(items: Seq<(u128, V)>, span: u128, s: u128)
    requires
        distinct_ids(items),
    ensures
        ({
            let after = without_id(items, span);
            &&& !has_id(after, span)
            &&& s != span ==> has_id(after, s) == has_id(items, s)
            &&& s != span && has_id(items, s) ==> after[id_place(after, s)].1 == items[id_place(
                items,
                s,
            )].1
        }),
{
    crate::id_map::law_an_entry_taken_is_gone(items, span, s);
    let after = without_id(items, span);
    if s != span && has_id(items, s) {
        let j = id_place(items, s);
        assert(id_at(items, s, j));
        if has_id(items, span) {
            let p = id_place(items, span);
            assert(id_at(items, span, p));
            if j == items.len() - 1 {
                assert(items[p].0 == span);
                assert(after[p] == items.last());
                assert(id_at(after, s, p));
                lemma_place_is_unique(after, s, p);
            } else {
                assert(after[j] == items[j]);
                assert(id_at(after, s, j));
                lemma_place_is_unique(after, s, j);
            }
        }
    }
}

/// What is put aside is found under its key and span, and takes the place of what was there; what
/// is taken is not found any more. Everything under another key or span is what it was.
pub proof fn law_what_is_put_aside_is_found<V>(
    m: Groups<V>,
    key: u128,
    span: u128,
    value: V,
    k: u128,
    s: u128,
)
    requires
        distinct_groups(m),
    ensures
        found(put(m, key, span, value), key, span) == Some(value),
        found(taken(m, key, span), key, span) is None,
        k != key || s != span ==> found(put(m, key, span, value), k, s) == found(m, k, s),
        k != key || s != span ==> found(taken(m, key, span), k, s) == found(m, k, s),
        found(Seq::<(u128, Seq<(u128, V)>)>::empty(), k, s) is None,
{
    let items = group(m, key);
    assert(distinct_ids(items)) by {
        if has_id(m, key) {
            assert(id_at(m, key, id_place(m, key)));
            assert(distinct_ids(m[id_place(m, key)].1));
        }
    }
    lemma_found_after_with(items, span, value, s);
    lemma_found_after_without(items, span, s);
    lemma_group_after(m, key, with_id(items, span, value), k);
    if has_id(m, key) {
        lemma_group_after(m, key, without_id(items, span), k);
        assert(taken(m, key, span) == with_id(m, key, without_id(items, span)));
    } else {
        assert(!has_id(Seq::<(u128, V)>::empty(), span)) by {
            if has_id(Seq::<(u128, V)>::empty(), span) {
                let i = id_place(Seq::<(u128, V)>::empty(), span);
                assert(id_at(Seq::<(u128, V)>::empty(), span, i));
            }
        }
    }
    assert(!has_id(Seq::<(u128, Seq<(u128, V)>)>::empty(), k)) by {
        if has_id(Seq::<(u128, Seq<(u128, V)>)>::empty(), k) {
            let i = id_place(Seq::<(u128, Seq<(u128, V)>)>::empty(), k);
            assert(id_at(Seq::<(u128, Seq<(u128, V)>)>::empty(), k, i));
        }
    }
    assert(!has_id(Seq::<(u128, V)>::empty(), s)) by {
        if has_id(Seq::<(u128, V)>::empty(), s) {
            let i = id_place(Seq::<(u128, V)>::empty(), s);
            assert(id_at(Seq::<(u128, V)>::empty(), s, i));
        }
    }
}

/// What is put aside under a key that was not used before comes last; and within a key, what is put
/// aside under a new span comes last. Groups come out whole, one after another.
pub proof fn law_what_is_put_aside_keeps_its_order<V>(
    m: Groups<V>,
    key: u128,
    span: u128,
    value: V,
    items: Seq<(u128, V)>,
)
    ensures
        !has_id(m, key) ==> all_values(put(m, key, span, value)) == all_values(m).push(value),
        !has_id(items, span) ==> values_of(with_id(items, span, value)) == values_of(items).push(
            value,
        ),
        all_values(m.push((key, items))) == all_values(m) + values_of(items),
        values_of(items).len() == items.len(),
        forall|i: int| 0 <= i < items.len() ==> #[trigger] values_of(items)[i] == items[i].1,
{
    assert(m.push((key, items)).drop_last() =~= m);
    assert(values_of(items.push((span, value))) =~= values_of(items).push(value));
    if !has_id(m, key) {
        let none = Seq::<(u128, V)>::empty();
        assert(!has_id(none, span)) by {
            if has_id(none, span) {
                assert(id_at(none, span, id_place(none, span)));
            }
        }
        let own = none.push((span, value));
        assert(put(m, key, span, value) == m.push((key, own)));
        assert(m.push((key, own)).drop_last() =~= m);
        assert(values_of(own) =~= seq![value]);
        assert(all_values(m) + seq![value] =~= all_values(m).push(value));
    }
}

/// A logged change does to the shape what it did to what is put aside, and changes are logged one
/// after another.
pub proof fn law_a_log_is_replayed_in_order(shape: Groups<()>, ops: Seq<StashOp>, op: StashOp)
    ensures
        reshaped_all(shape, Seq::empty()) == shape,
        op matches StashOp::Insert(key, span) ==> reshaped_all(shape, ops.push(op)) == put(
            reshaped_all(shape, ops),
            key_id(key),
            span_id(span),
            (),
        ),
        op matches StashOp::Remove(key, span) ==> reshaped_all(shape, ops.push(op)) == taken(
            reshaped_all(shape, ops),
            key_id(key),
            span_id(span),
        ),
{
    assert(ops.push(op).drop_last() =~= ops);
}

/// In serial order comes what the shape lists, in its order, as it is put aside now: what is not put
/// aside any more is left out.
pub proof fn law_the_shape_gives_the_order<V>(
    live: Groups<V>,
    shape: Groups<()>,
    key: u128,
    spans: Seq<(u128, ())>,
    span: u128,
)
    ensures
        found_in_order(live, Seq::empty()) == Seq::<V>::empty(),
        found_in_order(live, shape.push((key, spans))) == found_in_order(live, shape)
            + found_in_group(live, key, spans),
        found_in_group(live, key, Seq::empty()) == Seq::<V>::empty(),
        found_in_group(live, key, spans.push((span, ()))) == (match found(live, key, span) {
            Some(value) => found_in_group(live, key, spans).push(value),
            None => found_in_group(live, key, spans),
        }),
{
    assert(shape.push((key, spans)).drop_last() =~= shape);
    assert(spans.push((span, ())).drop_last() =~= spans);
    let before = found_in_group(live, key, spans);
    if let Some(value) = found(live, key, span) {
        assert(before + seq![value] =~= before.push(value));
    } else {
        assert(before + Seq::<V>::empty() =~= before);
    }
}

/// A key is named as it is written.
pub proof fn law_a_key_is_named_as_it_is_written(key: StashKey, name: &'static str)
    requires
        call_ensures(StashKey::to_str, (key,), name),
    ensures
        key == StashKey::ItemNoType ==> name@ == "ItemNoType"@,
        key == StashKey::UnderscoreForArrayLengths ==> name@ == "UnderscoreForArrayLengths"@,
        key == StashKey::EarlySyntaxWarning ==> name@ == "EarlySyntaxWarning"@,
        key == StashKey::CallIntoMethod ==> name@ == "CallIntoMethod"@,
        key == StashKey::LifetimeIsChar ==> name@ == "LifetimeIsChar"@,
        key == StashKey::MaybeFruTypo ==> name@ == "MaybeFruTypo"@,
        key == StashKey::CallAssocMethod ==> name@ == "CallAssocMethod"@,
        key == StashKey::AssociatedTypeSuggestion ==> name@ == "AssociatedTypeSuggestion"@,
        key == StashKey::UndeterminedMacroResolution ==> name@ == "UndeterminedMacroResolution"@,
        key == StashKey::ExprInPat ==> name@ == "ExprInPat"@,
        key == StashKey::GenericInFieldExpr ==> name@ == "GenericInFieldExpr"@,
        key == StashKey::ReturnTypeNotation ==> name@ == "ReturnTypeNotation"@,
{
}

} // verus!
