//! Spans of source text, and the sets of spans that a diagnostic highlights.

use vstd::prelude::*;

use crate::error_messages::message::DiagMessage;
use crate::error_messages::message::MessageModel;
use crate::sort::sort;
use crate::sort::sorted;
use crate::sort::TotalOrder;

verus! {

/// A range of source text, with its hygiene context and the item it belongs to, if it is known.
#[derive(Clone, Copy, PartialEq, Eq, Structural, Debug)]
pub struct Span {
    pub lo: u32,
    pub hi: u32,
    pub ctxt: u32,
    pub parent: Option<u32>,
}

impl Span {
    /// Neither end of the span is anywhere.
    pub open spec fn dummy(self) -> bool {
        self.lo == 0 && self.hi == 0
    }

    pub fn is_dummy(&self) -> (yes: bool)
        ensures
            yes == self.dummy(),
    {
        self.lo == 0 && self.hi == 0
    }

    /// The span, as one that belongs to no item.
    pub open spec fn spec_without_parent(self) -> Span {
        Span { parent: None, ..self }
    }

    pub fn without_parent(self) -> (span: Span)
        ensures
            span == self.spec_without_parent(),
    {
        Span { lo: self.lo, hi: self.hi, ctxt: self.ctxt, parent: None }
    }

    /// The empty span at the end of this one.
    pub fn shrink_to_hi(self) -> (span: Span)
        ensures
            span == (Span { lo: self.hi, ..self }),
    {
        Span { lo: self.hi, hi: self.hi, ctxt: self.ctxt, parent: self.parent }
    }
}

/// The place of a parent in the order of spans: none comes before any.
pub open spec fn parent_rank(parent: Option<u32>) -> int {
    match parent {
        None => -1,
        Some(p) => p as int,
    }
}

impl TotalOrder for Span {
    open spec fn leq(a: Self, b: Self) -> bool {
        if a.lo != b.lo {
            a.lo < b.lo
        } else if a.hi != b.hi {
            a.hi < b.hi
        } else if a.ctxt != b.ctxt {
            a.ctxt < b.ctxt
        } else {
            parent_rank(a.parent) <= parent_rank(b.parent)
        }
    }

    proof fn lemma_total(a: Self, b: Self) {
    }

    proof fn lemma_transitive(a: Self, b: Self, c: Self) {
    }

    fn is_leq(a: &Self, b: &Self) -> (yes: bool) {
        if a.lo != b.lo {
            a.lo < b.lo
        } else if a.hi != b.hi {
            a.hi < b.hi
        } else if a.ctxt != b.ctxt {
            a.ctxt < b.ctxt
        } else {
            match (a.parent, b.parent) {
                (None, _) => true,
                (Some(_), None) => false,
                (Some(p), Some(q)) => p <= q,
            }
        }
    }
}

/// A span to highlight.
pub struct SpanLabel {
    pub span: Span,
    /// Whether this is where the message is about.
    pub is_primary: bool,
    /// What to say about the span, if anything.
    pub label: Option<DiagMessage>,
}

/// The spans that a message is about, and labels for spans.
pub struct MultiSpan {
    primary_spans: Vec<Span>,
    span_labels: Vec<(Span, DiagMessage)>,
}

/// `span`, or `after` where it is `before`.
pub open spec fn span_replaced(span: Span, before: Span, after: Span) -> Span {
    if span == before {
        after
    } else {
        span
    }
}

/// The highlights of the labels themselves: each is primary if its span is.
pub open spec fn label_entries(
    primaries: Seq<Span>,
    labels: Seq<(Span, DiagMessage)>,
) -> Seq<SpanLabel> {
    labels.map_values(
        |label: (Span, DiagMessage)|
            SpanLabel {
                span: label.0,
                is_primary: primaries.contains(label.0),
                label: Some(label.1),
            },
    )
}

/// Some entry is about `span`.
pub open spec fn mentions(entries: Seq<SpanLabel>, span: Span) -> bool {
    exists|i: int| 0 <= i < entries.len() && (#[trigger] entries[i]).span == span
}

/// `entries`, and then an entry without a label for each primary span that has none yet.
pub open spec fn with_bare_primaries(
    entries: Seq<SpanLabel>,
    primaries: Seq<Span>,
) -> Seq<SpanLabel>
    decreases primaries.len(),
{
    if primaries.len() == 0 {
        entries
    } else {
        let before = with_bare_primaries(entries, primaries.drop_last());
        if mentions(before, primaries.last()) {
            before
        } else {
            before.push(SpanLabel { span: primaries.last(), is_primary: true, label: None })
        }
    }
}

/// What a `MultiSpan` holds.
pub struct SpanModel {
    pub primaries: Seq<Span>,
    pub labels: Seq<(Span, MessageModel)>,
}

impl View for MultiSpan {
    type V = SpanModel;

    open spec fn view(&self) -> SpanModel {
        SpanModel {
            primaries: self.primaries(),
            labels: Seq::new(
                self.labels().len(),
                |i: int| (self.labels()[i].0, self.labels()[i].1@),
            ),
        }
    }
}

impl MultiSpan {
    pub closed spec fn primaries(&self) -> Seq<Span> {
        self.primary_spans@
    }

    pub closed spec fn labels(&self) -> Seq<(Span, DiagMessage)> {
        self.span_labels@
    }

    pub fn new() -> (m: MultiSpan)
        ensures
            m.primaries() == Seq::<Span>::empty(),
            m.labels() == Seq::<(Span, DiagMessage)>::empty(),
    {
        MultiSpan { primary_spans: Vec::new(), span_labels: Vec::new() }
    }

    pub fn from_span(primary_span: Span) -> (m: MultiSpan)
        ensures
            m.primaries() == seq![primary_span],
            m.labels() == Seq::<(Span, DiagMessage)>::empty(),
    {
        let mut primary_spans: Vec<Span> = Vec::new();
        primary_spans.push(primary_span);
        assert(primary_spans@ =~= seq![primary_span]);
        MultiSpan { primary_spans, span_labels: Vec::new() }
    }

    /// The spans in their order.
    pub fn from_spans(vec: Vec<Span>) -> (m: MultiSpan)
        ensures
            sorted(m.primaries()),
            m.primaries().to_multiset() == vec@.to_multiset(),
            m.labels() == Seq::<(Span, DiagMessage)>::empty(),
    {
        MultiSpan { primary_spans: sort(vec), span_labels: Vec::new() }
    }

    pub fn push_primary_span(&mut self, primary_span: Span)
        ensures
            final(self).primaries() == old(self).primaries().push(primary_span),
            final(self).labels() == old(self).labels(),
    {
        self.primary_spans.push(primary_span);
    }

    pub fn push_span_label(&mut self, span: Span, label: DiagMessage)
        ensures
            final(self).primaries() == old(self).primaries(),
            final(self).labels() == old(self).labels().push((span, label)),
    {
        self.span_labels.push((span, label));
    }

    pub fn push_span_diag(&mut self, span: Span, diag: DiagMessage)
        ensures
            final(self).primaries() == old(self).primaries(),
            final(self).labels() == old(self).labels().push((span, diag)),
    {
        self.span_labels.push((span, diag));
    }

    /// The first primary span, if there is any.
    pub fn primary_span(&self) -> (span: Option<Span>)
        ensures
            span == self.spec_primary_span(),
    {
        if self.primary_spans.len() > 0 {
            Some(self.primary_spans[0])
        } else {
            None
        }
    }

    pub open spec fn spec_primary_span(&self) -> Option<Span> {
        if self.primaries().len() > 0 {
            Some(self.primaries()[0])
        } else {
            None
        }
    }

    pub fn primary_spans(&self) -> (spans: &Vec<Span>)
        ensures
            spans@ == self.primaries(),
    {
        &self.primary_spans
    }

    /// Whether any of the primary spans can be displayed.
    pub fn has_primary_spans(&self) -> (yes: bool)
        ensures
            yes == exists|i: int|
                0 <= i < self.primaries().len() && !(#[trigger] self.primaries()[i]).dummy(),
    {
        !self.is_dummy()
    }

    /// Whether no primary span can be displayed.
    pub fn is_dummy(&self) -> (yes: bool)
        ensures
            yes == forall|i: int|
                0 <= i < self.primaries().len() ==> (#[trigger] self.primaries()[i]).dummy(),
    {
        let mut i: usize = 0;
        while i < self.primary_spans.len()
            invariant
                i <= self.primaries().len(),
                forall|k: int| 0 <= k < i ==> (#[trigger] self.primaries()[k]).dummy(),
            decreases self.primaries().len() - i,
        {
            if !self.primary_spans[i].is_dummy() {
                assert(!self.primaries()[i as int].dummy());
                return false;
            }
            i += 1;
        }
        true
    }

    /// Replaces every occurrence of one span by another, and answers whether there was any.
    pub fn replace(&mut self, before: Span, after: Span) -> (replaced: bool)
        ensures
            final(self).primaries() == old(self).primaries().map_values(
                |s: Span| span_replaced(s, before, after),
            ),
            final(self).labels() == old(self).labels().map_values(
                |l: (Span, DiagMessage)| (span_replaced(l.0, before, after), l.1),
            ),
            replaced <==> old(self).primaries().contains(before) || exists|i: int|
                0 <= i < old(self).labels().len() && (#[trigger] old(self).labels()[i]).0 == before,
    {
        let mut replaced = false;
        let ghost primaries = self.primary_spans@;
        let ghost labels = self.span_labels@;
        let mut i: usize = 0;
        while i < self.primary_spans.len()
            invariant
                i <= self.primary_spans@.len(),
                self.primary_spans@.len() == primaries.len(),
                self.span_labels@ == labels,
                forall|k: int|
                    0 <= k < primaries.len() ==> #[trigger] self.primary_spans@[k] == (if k < i {
                        span_replaced(primaries[k], before, after)
                    } else {
                        primaries[k]
                    }),
                replaced <==> exists|k: int| 0 <= k < i && #[trigger] primaries[k] == before,
            decreases primaries.len() - i,
        {
            if self.primary_spans[i] == before {
                self.primary_spans.set(i, after);
                replaced = true;
                assert(primaries[i as int] == before);
            }
            i += 1;
        }
        assert(self.primary_spans@ =~= primaries.map_values(
            |s: Span| span_replaced(s, before, after),
        ));
        assert(replaced <==> primaries.contains(before));
        let mut j: usize = 0;
        while j < self.span_labels.len()
            invariant
                j <= self.span_labels@.len(),
                self.span_labels@.len() == labels.len(),
                self.primary_spans@ == primaries.map_values(
                    |s: Span| span_replaced(s, before, after),
                ),
                forall|k: int|
                    0 <= k < labels.len() ==> #[trigger] self.span_labels@[k] == (if k < j {
                        (span_replaced(labels[k].0, before, after), labels[k].1)
                    } else {
                        labels[k]
                    }),
                replaced <==> primaries.contains(before) || exists|k: int|
                    0 <= k < j && (#[trigger] labels[k]).0 == before,
            decreases labels.len() - j,
        {
            if self.span_labels[j].0 == before {
                self.span_labels[j].0 = after;
                replaced = true;
                assert(labels[j as int].0 == before);
            }
            j += 1;
        }
        assert(self.span_labels@ =~= labels.map_values(
            |l: (Span, DiagMessage)| (span_replaced(l.0, before, after), l.1),
        ));
        replaced
    }

    fn is_primary(&self, span: Span) -> (yes: bool)
        ensures
            yes == self.primaries().contains(span),
    {
        let mut i: usize = 0;
        while i < self.primary_spans.len()
            invariant
                i <= self.primaries().len(),
                forall|k: int| 0 <= k < i ==> self.primaries()[k] != span,
            decreases self.primaries().len() - i,
        {
            if self.primary_spans[i] == span {
                assert(self.primaries()[i as int] == span);
                return true;
            }
            i += 1;
        }
        false
    }

    /// The spans to highlight: the labels, marked as primary where their span is, and an entry
    /// without a label for each primary span that no label is about.
    pub fn span_labels(&self) -> (entries: Vec<SpanLabel>)
        ensures
            entries@ == with_bare_primaries(
                label_entries(self.primaries(), self.labels()),
                self.primaries(),
            ),
    {
        let mut entries: Vec<SpanLabel> = Vec::new();
        let mut i: usize = 0;
        while i < self.span_labels.len()
            invariant
                i <= self.labels().len(),
                entries@ == label_entries(self.primaries(), self.labels()).take(i as int),
            decreases self.labels().len() - i,
        {
            let span: Span = self.span_labels[i].0;
            let is_primary = self.is_primary(span);
            let label = self.span_labels[i].1.clone();
            entries.push(SpanLabel { span, is_primary, label: Some(label) });
            i += 1;
            assert(entries@ =~= label_entries(self.primaries(), self.labels()).take(i as int));
        }
        let ghost labelled = label_entries(self.primaries(), self.labels());
        assert(entries@ =~= labelled);
        let mut j: usize = 0;
        assert(self.primaries().take(0) =~= Seq::<Span>::empty());
        while j < self.primary_spans.len()
            invariant
                j <= self.primaries().len(),
                entries@ == with_bare_primaries(labelled, self.primaries().take(j as int)),
            decreases self.primaries().len() - j,
        {
            let span: Span = self.primary_spans[j];
            assert(self.primaries().take(j + 1).drop_last() =~= self.primaries().take(j as int));
            if !has_entry(&entries, span) {
                entries.push(SpanLabel { span, is_primary: true, label: None });
            }
            j += 1;
        }
        assert(self.primaries().take(j as int) =~= self.primaries());
        entries
    }

    pub fn span_labels_raw(&self) -> (labels: &Vec<(Span, DiagMessage)>)
        ensures
            labels@ == self.labels(),
    {
        &self.span_labels
    }

    /// Whether any of the labelled spans can be displayed.
    pub fn has_span_labels(&self) -> (yes: bool)
        ensures
            yes == exists|i: int|
                0 <= i < self.labels().len() && !(#[trigger] self.labels()[i]).0.dummy(),
    {
        let mut i: usize = 0;
        while i < self.span_labels.len()
            invariant
                i <= self.labels().len(),
                forall|k: int| 0 <= k < i ==> (#[trigger] self.labels()[k]).0.dummy(),
            decreases self.labels().len() - i,
        {
            if !self.span_labels[i].0.is_dummy() {
                assert(!self.labels()[i as int].0.dummy());
                return true;
            }
            i += 1;
        }
        false
    }

    /// The same primary spans, with the same labels.
    pub fn copy(&self) -> (m: MultiSpan)
        ensures
            m@ == self@,
    {
        let mut m = self.clone_ignoring_labels();
        let mut i: usize = 0;
        while i < self.span_labels.len()
            invariant
                i <= self.labels().len(),
                m.primaries() == self.primaries(),
                m.labels() == self.labels().take(i as int),
            decreases self.labels().len() - i,
        {
            m.push_span_label(self.span_labels[i].0, self.span_labels[i].1.clone());
            i += 1;
            assert(m.labels() =~= self.labels().take(i as int));
        }
        assert(m.labels() =~= self.labels());
        m
    }

    /// The same primary spans, without labels.
    pub fn clone_ignoring_labels(&self) -> (m: MultiSpan)
        ensures
            m.primaries() == self.primaries(),
            m.labels() == Seq::<(Span, DiagMessage)>::empty(),
    {
        let mut m = MultiSpan::new();
        let mut i: usize = 0;
        while i < self.primary_spans.len()
            invariant
                i <= self.primaries().len(),
                m.primaries() == self.primaries().take(i as int),
                m.labels() == Seq::<(Span, DiagMessage)>::empty(),
            decreases self.primaries().len() - i,
        {
            m.push_primary_span(self.primary_spans[i]);
            i += 1;
            assert(m.primaries() =~= self.primaries().take(i as int));
        }
        assert(m.primaries() =~= self.primaries());
        m
    }
}

fn has_entry(entries: &Vec<SpanLabel>, span: Span) -> (yes: bool)
    ensures
        yes == mentions(entries@, span),
{
    let mut i: usize = 0;
    while i < entries.len()
        invariant
            i <= entries@.len(),
            forall|k: int| 0 <= k < i ==> (#[trigger] entries@[k]).span != span,
        decreases entries@.len() - i,
    {
        if entries[i].span == span {
            return true;
        }
        i += 1;
    }
    false
}

/// Every primary span is highlighted, and every highlight of a primary span is marked as one.
pub proof fn law_every_primary_span_is_highlighted(m: MultiSpan, p: int)
    requires
        0 <= p < m.primaries().len(),
    ensures
        ({
            let entries = with_bare_primaries(
                label_entries(m.primaries(), m.labels()),
                m.primaries(),
            );
            &&& mentions(entries, m.primaries()[p])
            &&& forall|i: int|
                0 <= i < entries.len() ==> ((#[trigger] entries[i]).is_primary
                    <==> m.primaries().contains(entries[i].span))
        }),
{
    let labelled = label_entries(m.primaries(), m.labels());
    assert(m.primaries().take(m.primaries().len() as int) =~= m.primaries());
    lemma_bare_primaries(labelled, m.primaries(), m.primaries());
}

proof fn lemma_bare_primaries(entries: Seq<SpanLabel>, done: Seq<Span>, primaries: Seq<Span>)
    requires
        forall|i: int|
            0 <= i < entries.len() ==> ((#[trigger] entries[i]).is_primary <==> primaries.contains(
                entries[i].span,
            )),
        done.len() <= primaries.len(),
        done == primaries.take(done.len() as int),
    ensures
        forall|p: int|
            0 <= p < done.len() ==> mentions(with_bare_primaries(entries, done), #[trigger] done[p]),
        forall|i: int|
            0 <= i < with_bare_primaries(entries, done).len() ==> ((
            #[trigger] with_bare_primaries(entries, done)[i]).is_primary <==> primaries.contains(
                with_bare_primaries(entries, done)[i].span,
            )),
    decreases done.len(),
{
    if done.len() > 0 {
        let n = done.len() - 1;
        assert(done.drop_last() =~= primaries.take(n));
        lemma_bare_primaries(entries, done.drop_last(), primaries);
        let before = with_bare_primaries(entries, done.drop_last());
        let after = with_bare_primaries(entries, done);
        assert(primaries[n] == done[n]);
        assert(primaries.contains(done[n]));
        assert forall|p: int| 0 <= p < done.len() implies mentions(after, #[trigger] done[p]) by {
            if p < n {
                assert(mentions(before, done.drop_last()[p]));
                let k = choose|k: int|
                    0 <= k < before.len() && (#[trigger] before[k]).span == done[p];
                assert(after[k].span == done[p]);
            } else if !mentions(before, done[n]) {
                assert(after[before.len() as int].span == done[n]);
            }
        }
    }
}

/// Spans rank by where they start, then by where they end, then by their contexts, and then by
/// their parents, of which having none comes first.
pub proof fn law_spans_rank_by_where_they_start(a: Span, b: Span)
    ensures
        a.lo < b.lo ==> Span::leq(a, b) && !Span::leq(b, a),
        a.lo == b.lo && a.hi < b.hi ==> Span::leq(a, b) && !Span::leq(b, a),
        a.lo == b.lo && a.hi == b.hi && a.ctxt < b.ctxt ==> Span::leq(a, b) && !Span::leq(b, a),
        a.lo == b.lo && a.hi == b.hi && a.ctxt == b.ctxt && a.parent is None ==> Span::leq(a, b),
        a.lo == b.lo && a.hi == b.hi && a.ctxt == b.ctxt && a.parent is Some && b.parent is Some
            ==> (Span::leq(a, b) <==> a.parent->0 <= b.parent->0),
        Span::leq(a, b) && Span::leq(b, a) <==> a == b,
{
}

/// A span is a dummy exactly if it starts and ends at zero.
pub proof fn law_a_dummy_is_nowhere(span: Span, yes: bool, bare: Span, end: Span)
    requires
        call_ensures(Span::is_dummy, (&span,), yes),
        call_ensures(Span::without_parent, (span,), bare),
        call_ensures(Span::shrink_to_hi, (span,), end),
    ensures
        yes <==> span.lo == 0 && span.hi == 0,
        bare.parent is None && bare.lo == span.lo && bare.hi == span.hi && bare.ctxt == span.ctxt,
        end.lo == span.hi && end.hi == span.hi && end.ctxt == span.ctxt && end.parent
            == span.parent,
{
}

/// Replacing a span replaces every occurrence of it, and nothing else.
pub proof fn law_every_occurrence_is_replaced(span: Span, before: Span, after: Span)
    ensures
        span == before ==> span_replaced(span, before, after) == after,
        span != before ==> span_replaced(span, before, after) == span,
{
}

/// The labels come first, in their order and with what they say, and behind them the primary spans
/// that no label is about, each without one.
pub proof fn law_labels_come_before_bare_spans(m: &MultiSpan, entries: Vec<SpanLabel>, i: int)
    requires
        call_ensures(MultiSpan::span_labels, (m,), entries),
        0 <= i < m.labels().len(),
    ensures
        entries@.len() >= m.labels().len(),
        entries@[i].span == m.labels()[i].0,
        entries@[i].label == Some(m.labels()[i].1),
        entries@[i].is_primary <==> m.primaries().contains(m.labels()[i].0),
        forall|k: int|
            m.labels().len() <= k < entries@.len() ==> (#[trigger] entries@[k]).label is None
                && entries@[k].is_primary,
{
    let labelled = label_entries(m.primaries(), m.labels());
    lemma_bare_behind(labelled, m.primaries());
    assert(entries@[i] == labelled[i]);
}

proof fn lemma_bare_behind(entries: Seq<SpanLabel>, primaries: Seq<Span>)
    ensures
        with_bare_primaries(entries, primaries).len() >= entries.len(),
        forall|i: int|
            0 <= i < entries.len() ==> with_bare_primaries(entries, primaries)[i]
                == #[trigger] entries[i],
        forall|k: int|
            entries.len() <= k < with_bare_primaries(entries, primaries).len() ==> (
            #[trigger] with_bare_primaries(entries, primaries)[k]).label is None
                && with_bare_primaries(entries, primaries)[k].is_primary,
    decreases primaries.len(),
{
    if primaries.len() > 0 {
        lemma_bare_behind(entries, primaries.drop_last());
    }
}

/// A primary span more is shown behind the others if nothing is shown there yet.
pub proof fn law_a_span_is_shown_once(entries: Seq<SpanLabel>, primaries: Seq<Span>, span: Span)
    ensures
        with_bare_primaries(entries, Seq::empty()) == entries,
        (exists|i: int|
            0 <= i < with_bare_primaries(entries, primaries).len() && (
            #[trigger] with_bare_primaries(entries, primaries)[i]).span == span)
            ==> with_bare_primaries(entries, primaries.push(span)) == with_bare_primaries(
            entries,
            primaries,
        ),
        (forall|i: int|
            0 <= i < with_bare_primaries(entries, primaries).len() ==> (
            #[trigger] with_bare_primaries(entries, primaries)[i]).span != span)
            ==> with_bare_primaries(entries, primaries.push(span)) == with_bare_primaries(
            entries,
            primaries,
        ).push(SpanLabel { span, is_primary: true, label: None }),
{
    assert(primaries.push(span).drop_last() =~= primaries);
}

} // verus!
