//! Messages as text.
//!
//! A template is filled in elsewhere; what came of it is handed to the functions here. `None` means
//! that it could not be filled in.

use vstd::prelude::*;
use vstd::string::StringExecFns;

use crate::error_messages::args::ArgModel;
use crate::error_messages::args::DiagArgValue;
use crate::error_messages::args::IntoDiagArg;
use crate::error_messages::message::DiagMessage;
use crate::error_messages::message::MessageModel;
use crate::errors::diag::arg_models;
use crate::errors::diag::message_models;
use crate::errors::diag::DiagInner;
use crate::errors::level::Style;
use crate::id_map::has_id;
use crate::id_map::id_place;
use crate::id_map::with_id;
use crate::text_map::TextMap;

verus! {

/// What came of filling in templates.
pub open spec fn fillings(filled: Seq<Option<String>>) -> Seq<Option<Seq<char>>> {
    Seq::new(
        filled.len(),
        |i: int|
            match filled[i] {
                Some(text) => Some(text@),
                None => None,
            },
    )
}

/// The text of a message, if there is one: final text, or the template filled in.
pub open spec fn message_text(m: MessageModel, filled: Option<Seq<char>>) -> Option<Seq<char>> {
    match m {
        MessageModel::Str(text) => Some(text),
        MessageModel::Inline(_) => filled,
    }
}

/// The text of a message with nothing filled in.
pub open spec fn message_source(m: MessageModel) -> Seq<char> {
    match m {
        MessageModel::Str(text) => text,
        MessageModel::Inline(text) => text,
    }
}

/// The text of a message, or the template where it could not be filled in.
pub open spec fn text_or_source(m: MessageModel, filled: Option<Seq<char>>) -> Seq<char> {
    match message_text(m, filled) {
        Some(text) => text,
        None => message_source(m),
    }
}

/// The texts of messages, one after another.
pub open spec fn texts_or_sources(
    messages: Seq<(MessageModel, Style)>,
    filled: Seq<Option<Seq<char>>>,
) -> Seq<char>
    decreases messages.len(),
{
    if messages.len() == 0 {
        Seq::empty()
    } else {
        texts_or_sources(messages.drop_last(), filled) + text_or_source(
            messages.last().0,
            filled[messages.len() - 1],
        )
    }
}

/// Every template could be filled in.
pub open spec fn all_filled(
    messages: Seq<(MessageModel, Style)>,
    filled: Seq<Option<Seq<char>>>,
) -> bool {
    forall|i: int|
        0 <= i < messages.len() ==> message_text((#[trigger] messages[i]).0, filled[i]) is Some
}

/// The text of a message with nothing filled in: final text, or the raw template.
pub fn diag_message_source(message: &DiagMessage) -> (s: &str)
    ensures
        s@ == message_source(message@),
{
    match message {
        DiagMessage::Str(msg) => msg.as_str(),
        DiagMessage::Inline(msg) => msg.as_str(),
    }
}

/// The text of a message, unless it is a template that could not be filled in.
pub fn try_format_diag_message<'a>(
    message: &'a DiagMessage,
    filled: &'a Option<String>,
) -> (text: Option<&'a str>)
    ensures
        text is Some == (message_text(
            message@,
            match *filled {
                Some(t) => Some(t@),
                None => None,
            },
        ) is Some),
        text matches Some(t) ==> message_text(
            message@,
            match *filled {
                Some(t) => Some(t@),
                None => None,
            },
        ) == Some(t@),
{
    match message {
        DiagMessage::Str(msg) => Some(msg.as_str()),
        DiagMessage::Inline(_) => match filled {
            Some(text) => Some(text.as_str()),
            None => None,
        },
    }
}

/// The text of a message that has one.
pub fn format_diag_message<'a>(message: &'a DiagMessage, filled: &'a Option<String>) -> (text:
    &'a str)
    requires
        *message is Str || *filled is Some,
    ensures
        message_text(
            message@,
            match *filled {
                Some(t) => Some(t@),
                None => None,
            },
        ) == Some(text@),
{
    message_or_source(message, filled)
}

/// The text of a message, or the template where it could not be filled in.
pub(crate) fn message_or_source<'a>(message: &'a DiagMessage, filled: &'a Option<String>) -> (text:
    &'a str)
    ensures
        text@ == text_or_source(
            message@,
            match *filled {
                Some(t) => Some(t@),
                None => None,
            },
        ),
{
    match try_format_diag_message(message, filled) {
        Some(text) => text,
        None => diag_message_source(message),
    }
}

fn push_messages(
    out: &mut String,
    messages: &Vec<(DiagMessage, Style)>,
    filled: &Vec<Option<String>>,
)
    requires
        filled@.len() == messages@.len(),
    ensures
        final(out)@ == old(out)@ + texts_or_sources(
            message_models(messages@),
            fillings(filled@),
        ),
{
    let ghost before = out@;
    let ghost ms = message_models(messages@);
    let ghost fs = fillings(filled@);
    let mut i: usize = 0;
    assert(ms.take(0) =~= Seq::<(MessageModel, Style)>::empty());
    assert(out@ =~= before + texts_or_sources(ms.take(0), fs));
    while i < messages.len()
        invariant
            i <= messages@.len(),
            filled@.len() == messages@.len(),
            ms == message_models(messages@),
            fs == fillings(filled@),
            out@ == before + texts_or_sources(ms.take(i as int), fs),
        decreases messages@.len() - i,
    {
        let text = message_or_source(&messages[i].0, &filled[i]);
        out.append(text);
        proof {
            assert(ms.take(i + 1).drop_last() =~= ms.take(i as int));
            assert(ms.take(i + 1).last() == ms[i as int]);
            assert(out@ =~= before + texts_or_sources(ms.take(i + 1), fs));
        }
        i += 1;
    }
    assert(ms.take(i as int) =~= ms);
}

/// The texts of messages that have one, one after another.
pub fn format_diag_messages(
    messages: &Vec<(DiagMessage, Style)>,
    filled: &Vec<Option<String>>,
) -> (text: String)
    requires
        filled@.len() == messages@.len(),
        all_filled(message_models(messages@), fillings(filled@)),
    ensures
        text@ == texts_or_sources(message_models(messages@), fillings(filled@)),
{
    let mut text = String::new();
    push_messages(&mut text, messages, filled);
    assert(text@ =~= texts_or_sources(message_models(messages@), fillings(filled@)));
    text
}

/// The line for a delayed bug in the report file.
pub fn delayed_bug_line(bug: &DiagInner, filled: &Vec<Option<String>>) -> (line: String)
    requires
        filled@.len() == bug@.messages.len(),
    ensures
        line@ == "delayed bug: "@ + texts_or_sources(bug@.messages, fillings(filled@)) + "\n"@,
{
    let mut line = String::new();
    line.append("delayed bug: ");
    push_messages(&mut line, &bug.messages, filled);
    line.append("\n");
    assert(line@ =~= "delayed bug: "@ + texts_or_sources(bug@.messages, fillings(filled@))
        + "\n"@);
    line
}

/// A template and the arguments to fill it in with.
pub struct EagerDiagMessageBuilder {
    template: String,
    args: TextMap<DiagArgValue>,
}

impl EagerDiagMessageBuilder {
    pub closed spec fn wf(&self) -> bool {
        self.args.wf()
    }

    pub closed spec fn spec_template(&self) -> Seq<char> {
        self.template@
    }

    /// The arguments, in the order in which they were given.
    pub closed spec fn args(&self) -> Seq<(Seq<char>, ArgModel)> {
        arg_models(self.args@)
    }

    /// The arguments, for whoever fills in the template.
    pub fn arguments(&self) -> (args: &TextMap<DiagArgValue>)
        requires
            self.wf(),
        ensures
            args.wf(),
            arg_models(args@) == self.args(),
    {
        &self.args
    }

    /// The template.
    pub fn template(&self) -> (s: &str)
        ensures
            s@ == self.spec_template(),
    {
        self.template.as_str()
    }

    /// The message, given what came of filling in the template.
    pub fn format(self, filled: String) -> (message: DiagMessage)
        ensures
            message@ == MessageModel::Str(filled@),
    {
        DiagMessage::Str(filled)
    }
}

/// What can be given arguments: a template, or one that has some already.
pub trait DiagMessageAddArg: Sized {
    /// The template.
    spec fn added_to(&self) -> Seq<char>;

    /// The arguments that it has, in the order in which they were given.
    spec fn given(&self) -> Seq<(Seq<char>, ArgModel)>;

    /// An argument can be given: there is a template, and an argument of that name that was given
    /// before is the same.
    spec fn takes(&self, name: Seq<char>, arg: ArgModel) -> bool;

    /// Gives an argument.
    fn arg<A: IntoDiagArg>(self, name: String, arg: A) -> (builder: EagerDiagMessageBuilder)
        requires
            self.takes(name@, arg.arg()),
        ensures
            builder.wf(),
            builder.spec_template() == self.added_to(),
            builder.args() == with_id(self.given(), name@, arg.arg()),
    ;
}

impl DiagMessageAddArg for EagerDiagMessageBuilder {
    open spec fn added_to(&self) -> Seq<char> {
        self.spec_template()
    }

    open spec fn given(&self) -> Seq<(Seq<char>, ArgModel)> {
        self.args()
    }

    open spec fn takes(&self, name: Seq<char>, arg: ArgModel) -> bool {
        self.wf() && (has_id(self.args(), name) ==> self.args()[id_place(self.args(), name)].1
            == arg)
    }

    fn arg<A: IntoDiagArg>(self, name: String, arg: A) -> (builder: EagerDiagMessageBuilder) {
        let mut builder = self;
        let mut path: Option<String> = None;
        let ghost before = builder.args@;
        let ghost key = name@;
        let ghost model = arg.arg();
        let value = arg.into_diag_arg(&mut path);
        proof {
            builder.args.lemma_distinct();
            lemma_models_keep_places(before, key);
        }
        builder.args.insert(name, value);
        assert(builder.args() =~= with_id(arg_models(before), key, model));
        builder
    }
}

impl DiagMessageAddArg for DiagMessage {
    open spec fn added_to(&self) -> Seq<char> {
        self.source()
    }

    open spec fn given(&self) -> Seq<(Seq<char>, ArgModel)> {
        Seq::empty()
    }

    /// Final text has nothing to fill in.
    open spec fn takes(&self, name: Seq<char>, arg: ArgModel) -> bool {
        *self is Inline
    }

    fn arg<A: IntoDiagArg>(self, name: String, arg: A) -> (builder: EagerDiagMessageBuilder) {
        let template = match self {
            DiagMessage::Inline(template) => template,
            DiagMessage::Str(template) => template,
        };
        let builder = EagerDiagMessageBuilder { template, args: TextMap::new() };
        assert(builder.args() =~= Seq::<(Seq<char>, ArgModel)>::empty());
        builder.arg(name, arg)
    }
}

proof fn lemma_models_keep_places(args: Seq<(Seq<char>, DiagArgValue)>, key: Seq<char>)
    requires
        crate::id_map::distinct_ids(args),
    ensures
        has_id(arg_models(args), key) == has_id(args, key),
        has_id(args, key) ==> id_place(arg_models(args), key) == id_place(args, key)
            && crate::id_map::id_at(args, key, id_place(args, key)),
{
    let models = arg_models(args);
    assert forall|i: int, j: int| 0 <= i < j < models.len() implies (#[trigger] models[i]).0 != (
    #[trigger] models[j]).0 by {
        assert(args[i].0 != args[j].0);
    }
    if has_id(args, key) {
        let i = id_place(args, key);
        assert(crate::id_map::id_at(args, key, i));
        assert(crate::id_map::id_at(models, key, i));
        crate::id_map::lemma_place_is_unique(models, key, i);
    }
    if has_id(models, key) {
        let i = id_place(models, key);
        assert(crate::id_map::id_at(models, key, i));
        assert(crate::id_map::id_at(args, key, i));
    }
}

/// Each message more comes behind the others: a final text as it is, a template as it was filled in,
/// and one that could not be filled in as it was written.
pub proof fn law_messages_come_one_after_another(
    messages: Seq<(MessageModel, Style)>,
    message: (MessageModel, Style),
    filled: Seq<Option<Seq<char>>>,
)
    ensures
        texts_or_sources(Seq::empty(), filled) == Seq::<char>::empty(),
        ({
            let before = texts_or_sources(messages, filled);
            let after = texts_or_sources(messages.push(message), filled);
            let now = filled[messages.len() as int];
            &&& message.0 is Str ==> after == before + message.0->Str_0
            &&& message.0 is Inline && now is Some ==> after == before + now->0
            &&& message.0 is Inline && now is None ==> after == before + message.0->Inline_0
        }),
{
    assert(messages.push(message).drop_last() =~= messages);
}

/// A message that is final needs no filling in; a template is what it was filled in with.
pub proof fn law_a_final_text_needs_no_filling(
    message: &DiagMessage,
    filled: &Option<String>,
    source: &str,
    text: Option<&str>,
)
    requires
        call_ensures(diag_message_source, (message,), source),
        call_ensures(try_format_diag_message, (message, filled), text),
    ensures
        message is Str ==> source@ == message->Str_0@ && text is Some && text->0@
            == message->Str_0@,
        message is Inline ==> source@ == message->Inline_0@ && (text is Some <==> *filled is Some),
        message is Inline && *filled is Some ==> text->0@ == filled->0@,
{
}

/// The line about a delayed bug names it as one, and ends there.
pub proof fn law_a_delayed_bug_is_named(bug: &DiagInner, filled: &Vec<Option<String>>, line: String)
    requires
        call_ensures(delayed_bug_line, (bug, filled), line),
    ensures
        line@ == ("delayed bug: "@ + texts_or_sources(bug@.messages, fillings(filled@))).push(
            '\n',
        ),
{
    reveal_strlit("\n");
    assert("\n"@ =~= seq!['\n']);
}

} // verus!
