//! How severe a diagnostic is.

use vstd::prelude::*;

use crate::error_messages::args::ArgModel;
use crate::error_messages::args::DiagArgValue;
use crate::error_messages::args::IntoDiagArg;
use crate::error_messages::args::LongTyPath;

verus! {

#[derive(Clone, Copy, PartialEq, Eq, Structural, Debug)]
pub enum Level {
    /// A bug in the compiler.
    Bug,
    /// An error that causes an immediate abort.
    Fatal,
    /// An error in the code being compiled.
    Error,
    /// An error that is registered and not emitted. If nothing else goes wrong, it is a bug.
    DelayedBug,
    /// A lint warning that cannot be silenced.
    ForceWarning,
    /// A warning about the code being compiled.
    Warning,
    /// A message that gives context.
    Note,
    /// A note that is only emitted once.
    OnceNote,
    /// A message that says how to fix something.
    Help,
    /// A help that is only emitted once.
    OnceHelp,
    /// A note for when compilation has failed.
    FailureNote,
    /// Only used for lints.
    Allow,
    /// Only used for lints, with the expectation that silences them.
    Expect,
}

impl Level {
    /// The level stands for something that went wrong.
    pub open spec fn error(self) -> bool {
        self == Level::Bug || self == Level::Fatal || self == Level::Error || self
            == Level::DelayedBug
    }

    pub fn is_error(self) -> (yes: bool)
        ensures
            yes == self.error(),
    {
        match self {
            Level::Bug => true,
            Level::Fatal => true,
            Level::Error => true,
            Level::DelayedBug => true,
            _ => false,
        }
    }

    /// The word for the level. An allowed or expected lint has none.
    pub open spec fn word(self) -> Seq<char> {
        match self {
            Level::Bug | Level::DelayedBug => "error: internal compiler error"@,
            Level::Fatal | Level::Error => "error"@,
            Level::ForceWarning | Level::Warning => "warning"@,
            Level::Note | Level::OnceNote => "note"@,
            Level::Help | Level::OnceHelp => "help"@,
            Level::FailureNote => "failure-note"@,
            Level::Allow | Level::Expect => Seq::empty(),
        }
    }

    pub fn to_str(self) -> (s: &'static str)
        requires
            self != Level::Allow,
            self != Level::Expect,
        ensures
            s@ == self.word(),
    {
        match self {
            Level::Bug => "error: internal compiler error",
            Level::DelayedBug => "error: internal compiler error",
            Level::Fatal => "error",
            Level::Error => "error",
            Level::ForceWarning => "warning",
            Level::Warning => "warning",
            Level::Note => "note",
            Level::OnceNote => "note",
            Level::Help => "help",
            Level::OnceHelp => "help",
            _ => "failure-note",
        }
    }

    pub fn is_failure_note(&self) -> (yes: bool)
        ensures
            yes == (*self == Level::FailureNote),
    {
        match self {
            Level::FailureNote => true,
            _ => false,
        }
    }

    /// The level as an argument of a message. An allowed or expected lint is none.
    pub fn to_diag_arg(self, path: &mut LongTyPath) -> (value: DiagArgValue)
        requires
            self != Level::Allow,
            self != Level::Expect,
        ensures
            value@ == ArgModel::Str(self.word()),
            *final(path) == *old(path),
    {
        self.to_str().into_diag_arg(path)
    }
}

/// How a piece of a rendered diagnostic looks.
#[derive(Clone, Copy, PartialEq, Eq, Structural, Debug)]
pub enum Style {
    MainHeaderMsg,
    HeaderMsg,
    LineAndColumn,
    LineNumber,
    Quotation,
    UnderlinePrimary,
    UnderlineSecondary,
    LabelPrimary,
    LabelSecondary,
    NoStyle,
    Level(Level),
    Highlight,
    Addition,
    Removal,
}

/// Whether a terminal is given links.
#[derive(Clone, Copy, PartialEq, Eq, Structural, Debug)]
pub enum TerminalUrl {
    No,
    Yes,
    Auto,
}

} // verus!
