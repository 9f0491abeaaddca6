//! Arguments and parts of diagnostics that several of them share.

use vstd::prelude::*;
use vstd::string::StringExecFns;

use crate::error_messages::args::ArgModel;
use crate::error_messages::args::DiagArgValue;
use crate::error_messages::args::IntoDiagArg;
use crate::error_messages::args::LongTyPath;
use crate::error_messages::message::DiagMessage;
use crate::error_messages::span::MultiSpan;
use crate::error_messages::span::Span;
use crate::text::texts;

verus! {

/// Names, each shown in backticks.
pub struct DiagSymbolList(Vec<String>);

/// The text in backticks.
pub open spec fn quoted(text: Seq<char>) -> Seq<char> {
    "`"@ + text + "`"@
}

/// Each text in backticks.
pub open spec fn all_quoted(list: Seq<Seq<char>>) -> Seq<Seq<char>> {
    Seq::new(list.len(), |i: int| quoted(list[i]))
}

impl DiagSymbolList {
    pub closed spec fn names(&self) -> Seq<Seq<char>> {
        texts(self.0@)
    }

    pub fn from_names(names: Vec<String>) -> (list: DiagSymbolList)
        ensures
            list.names() == texts(names@),
    {
        DiagSymbolList(names)
    }
}

impl IntoDiagArg for DiagSymbolList {
    open spec fn arg(self) -> ArgModel {
        ArgModel::StrListSepByAnd(all_quoted(self.names()))
    }

    fn into_diag_arg(self, path: &mut LongTyPath) -> (value: DiagArgValue) {
        let mut out: Vec<String> = Vec::new();
        let mut i: usize = 0;
        let ghost want = all_quoted(self.names());
        while i < self.0.len()
            invariant
                i <= self.0@.len(),
                want == all_quoted(texts(self.0@)),
                out@.len() == i,
                forall|k: int| 0 <= k < i ==> (#[trigger] out@[k])@ == want[k],
            decreases self.0@.len() - i,
        {
            let mut s = String::new();
            s.append("`");
            s.append(self.0[i].as_str());
            s.append("`");
            assert(s@ =~= quoted(texts(self.0@)[i as int]));
            out.push(s);
            i += 1;
        }
        assert(texts(out@) =~= want);
        DiagArgValue::StrListSepByAnd(out)
    }
}

/// One label for several spans.
pub struct SingleLabelManySpans {
    pub spans: Vec<Span>,
    pub label: String,
}

impl SingleLabelManySpans {
    /// Puts the label on every span.
    pub fn add_to_span(self, span: &mut MultiSpan)
        ensures
            final(span).primaries() == old(span).primaries(),
            final(span)@.labels == old(span)@.labels + Seq::new(
                self.spans@.len(),
                |i: int|
                    (
                        self.spans@[i],
                        crate::error_messages::message::MessageModel::Str(self.label@),
                    ),
            ),
    {
        let ghost before = span@.labels;
        let ghost added = Seq::new(
            self.spans@.len(),
            |i: int|
                (
                    self.spans@[i],
                    crate::error_messages::message::MessageModel::Str(self.label@),
                ),
        );
        let mut i: usize = 0;
        assert(span@.labels =~= before + added.take(0));
        while i < self.spans.len()
            invariant
                i <= self.spans@.len(),
                span.primaries() == old(span).primaries(),
                added == Seq::new(
                    self.spans@.len(),
                    |i: int|
                        (
                            self.spans@[i],
                            crate::error_messages::message::MessageModel::Str(self.label@),
                        ),
                ),
                span@.labels == before + added.take(i as int),
            decreases self.spans@.len() - i,
        {
            let ghost so_far = span@.labels;
            span.push_span_label(self.spans[i], DiagMessage::Str(self.label.clone()));
            assert(span@.labels =~= so_far.push(added[i as int]));
            i += 1;
            assert(span@.labels =~= before + added.take(i as int));
        }
        assert(added.take(i as int) =~= added);
    }
}

/// Names are listed in quotes, each between two of them and in its place.
pub proof fn law_names_are_quoted(list: DiagSymbolList, i: int)
    requires
        0 <= i < list.names().len(),
    ensures
        list.arg() is StrListSepByAnd,
        list.arg()->StrListSepByAnd_0.len() == list.names().len(),
        list.arg()->StrListSepByAnd_0[i] == seq!['`'] + list.names()[i] + seq!['`'],
{
    reveal_strlit("`");
    assert("`"@ =~= seq!['`']);
}

} // verus!
