//! The text of a diagnostic: final text, or a template whose arguments are still to be filled in.

use vstd::prelude::*;
use vstd::string::StringExecFns;

verus! {

pub enum DiagMessage {
    /// A message with nothing left to substitute.
    Str(String),
    /// A template, with its `{$args}` still in place.
    Inline(String),
}

/// What a message is, with its text as characters.
pub enum MessageModel {
    Str(Seq<char>),
    Inline(Seq<char>),
}

impl View for DiagMessage {
    type V = MessageModel;

    open spec fn view(&self) -> MessageModel {
        match self {
            DiagMessage::Str(s) => MessageModel::Str(s@),
            DiagMessage::Inline(s) => MessageModel::Inline(s@),
        }
    }
}

impl Clone for DiagMessage {
    fn clone(&self) -> (m: Self)
        ensures
            m == *self,
    {
        match self {
            DiagMessage::Str(s) => DiagMessage::Str(s.clone()),
            DiagMessage::Inline(s) => DiagMessage::Inline(s.clone()),
        }
    }
}

impl From<String> for DiagMessage {
    fn from(s: String) -> (m: Self) {
        DiagMessage::Str(s)
    }
}

impl vstd::std_specs::convert::FromSpecImpl<String> for DiagMessage {
    open spec fn obeys_from_spec() -> bool {
        true
    }

    open spec fn from_spec(s: String) -> Self {
        DiagMessage::Str(s)
    }
}

impl From<&'static str> for DiagMessage {
    /// The text is final.
    fn from(s: &'static str) -> (m: Self)
        ensures
            m@ == MessageModel::Str(s@),
    {
        let mut text = String::new();
        text.append(s);
        assert(text@ =~= s@);
        DiagMessage::Str(text)
    }
}

/// Two strings with the same characters need not be the same string: the conversion is stated by
/// the characters.
impl vstd::std_specs::convert::FromSpecImpl<&'static str> for DiagMessage {
    open spec fn obeys_from_spec() -> bool {
        false
    }

    open spec fn from_spec(s: &'static str) -> Self {
        choose|m: DiagMessage| m@ == MessageModel::Str(s@)
    }
}

impl DiagMessage {
    /// The text, whether it is final or a template.
    pub open spec fn source(&self) -> Seq<char> {
        match self {
            DiagMessage::Str(s) => s@,
            DiagMessage::Inline(s) => s@,
        }
    }

    /// The text, if it is final.
    pub fn as_str(&self) -> (s: Option<&str>)
        ensures
            s is Some == (*self is Str),
            s matches Some(text) ==> text@ == self.source(),
    {
        match self {
            DiagMessage::Str(s) => Some(s.as_str()),
            DiagMessage::Inline(_) => None,
        }
    }
}

/// Why a template cannot be read, and where.
pub struct TemplateFault {
    pub offset: usize,
    pub message: String,
}

/// What a template comes to when it is filled in.
pub struct Rendered {
    pub text: String,
    /// The arguments that the template refers to and that were not set.
    pub unresolved: Vec<String>,
}

/// Why a template has no text.
pub enum RenderFault {
    Unreadable(TemplateFault),
    Unresolved(Vec<String>),
}

/// The text of a template, given what reading it and filling it in came to. Every argument that
/// it refers to has to be set.
pub fn render_message(rendered: Result<Rendered, TemplateFault>) -> (text: Result<
    String,
    RenderFault,
>)
    ensures
        text == (match rendered {
            Err(fault) => Err(RenderFault::Unreadable(fault)),
            Ok(rendered) => if rendered.unresolved@.len() == 0 {
                Ok(rendered.text)
            } else {
                Err(RenderFault::Unresolved(rendered.unresolved))
            },
        }),
{
    match rendered {
        Err(fault) => Err(RenderFault::Unreadable(fault)),
        Ok(rendered) => if rendered.unresolved.len() == 0 {
            Ok(rendered.text)
        } else {
            Err(RenderFault::Unresolved(rendered.unresolved))
        },
    }
}

/// The text of a template, for a caller that has to go on where there is none.
pub fn try_render_message(rendered: Result<Rendered, TemplateFault>) -> (text: Option<String>)
    ensures
        text == (match rendered {
            Ok(rendered) if rendered.unresolved@.len() == 0 => Some(rendered.text),
            _ => None,
        }),
{
    match render_message(rendered) {
        Ok(text) => Some(text),
        Err(_) => None,
    }
}

/// A text is handed out exactly if the template could be read and every argument was there; else
/// the fault says which of the two was wrong.
pub proof fn law_a_rendered_message_is_complete(
    rendered: Result<Rendered, TemplateFault>,
    text: Result<String, RenderFault>,
    tried: Option<String>,
)
    requires
        call_ensures(render_message, (rendered,), text),
        call_ensures(try_render_message, (rendered,), tried),
    ensures
        text is Ok <==> rendered is Ok && rendered->Ok_0.unresolved@.len() == 0,
        text is Ok ==> text->Ok_0 == rendered->Ok_0.text && tried == Some(text->Ok_0),
        text is Err ==> tried is None,
        rendered is Err ==> text->Err_0 == RenderFault::Unreadable(rendered->Err_0),
        rendered is Ok && rendered->Ok_0.unresolved@.len() > 0 ==> text->Err_0
            == RenderFault::Unresolved(rendered->Ok_0.unresolved),
{
}

} // verus!
