//! File operations, as decisions: what to try next, given what came of the last try.

use vstd::prelude::*;

verus! {

/// How a file got to where it is to be.
#[derive(Clone, Copy, PartialEq, Eq, Structural, Debug)]
pub enum LinkOrCopy {
    /// A hard link was made.
    Link,
    /// The bytes were copied.
    Copy,
}

/// What is to be done next to get a file to where it is to be.
#[derive(Clone, Copy, PartialEq, Eq, Structural, Debug)]
pub enum LinkAction {
    HardLink,
    /// The destination is in the way: it is removed, and the link is tried again.
    RemoveAndHardLink,
    CopyBytes,
    Done(LinkOrCopy),
    /// The copy failed, and so did the whole.
    Failed,
}

/// What came of the last try.
#[derive(Clone, Copy, PartialEq, Eq, Structural, Debug)]
pub enum LinkEvent {
    Succeeded,
    AlreadyExists,
    OtherError,
}

/// What to do after `last` came to `event`. A link is tried first, once more if something was in
/// the way, and then a copy.
pub fn link_or_copy(last: LinkAction, event: LinkEvent) -> (next: LinkAction)
    ensures
        next == (match last {
            LinkAction::HardLink => match event {
                LinkEvent::Succeeded => LinkAction::Done(LinkOrCopy::Link),
                LinkEvent::AlreadyExists => LinkAction::RemoveAndHardLink,
                LinkEvent::OtherError => LinkAction::CopyBytes,
            },
            LinkAction::RemoveAndHardLink => if event == LinkEvent::Succeeded {
                LinkAction::Done(LinkOrCopy::Link)
            } else {
                LinkAction::CopyBytes
            },
            LinkAction::CopyBytes => if event == LinkEvent::Succeeded {
                LinkAction::Done(LinkOrCopy::Copy)
            } else {
                LinkAction::Failed
            },
            other => other,
        }),
{
    match last {
        LinkAction::HardLink => match event {
            LinkEvent::Succeeded => LinkAction::Done(LinkOrCopy::Link),
            LinkEvent::AlreadyExists => LinkAction::RemoveAndHardLink,
            LinkEvent::OtherError => LinkAction::CopyBytes,
        },
        LinkAction::RemoveAndHardLink => match event {
            LinkEvent::Succeeded => LinkAction::Done(LinkOrCopy::Link),
            _ => LinkAction::CopyBytes,
        },
        LinkAction::CopyBytes => match event {
            LinkEvent::Succeeded => LinkAction::Done(LinkOrCopy::Copy),
            _ => LinkAction::Failed,
        },
        other => other,
    }
}

/// The path to use for a file: its canonical path if there is one, else its absolute path.
pub fn try_canonicalize(canonical: Option<String>, absolute: Option<String>) -> (path: Option<
    String,
>)
    ensures
        path == (if canonical is Some {
            canonical
        } else {
            absolute
        }),
{
    match canonical {
        Some(path) => Some(path),
        None => absolute,
    }
}

/// The name of a temporary directory in the making.
pub struct TempDirBuilder<'a, 'b> {
    prefix: &'a str,
    suffix: &'b str,
}

impl<'a, 'b> TempDirBuilder<'a, 'b> {
    /// What the name starts with.
    pub closed spec fn leading(&self) -> Seq<char> {
        self.prefix@
    }

    /// What the name ends with.
    pub closed spec fn trailing(&self) -> Seq<char> {
        self.suffix@
    }

    /// A name without prefix and suffix.
    pub fn new() -> (builder: Self)
        ensures
            builder.leading() == ""@,
            builder.trailing() == ""@,
    {
        TempDirBuilder { prefix: "", suffix: "" }
    }

    /// Sets what the name starts with.
    pub fn prefix(&mut self, prefix: &'a str)
        ensures
            final(self).leading() == prefix@,
            final(self).trailing() == old(self).trailing(),
    {
        self.prefix = prefix;
    }

    /// Sets what the name ends with.
    pub fn suffix(&mut self, suffix: &'b str)
        ensures
            final(self).leading() == old(self).leading(),
            final(self).trailing() == suffix@,
    {
        self.suffix = suffix;
    }

    /// What the name starts with, and what it ends with.
    pub fn parts(&self) -> (parts: (&'a str, &'b str))
        ensures
            parts.0@ == self.leading(),
            parts.1@ == self.trailing(),
    {
        (self.prefix, self.suffix)
    }
}

/// A path that a C compiler takes: the path itself.
pub fn fix_windows_verbatim_for_gcc(p: &Vec<u8>) -> (path: Vec<u8>)
    ensures
        path@ == p@,
{
    let mut path: Vec<u8> = Vec::new();
    let mut i: usize = 0;
    while i < p.len()
        invariant
            i <= p@.len(),
            path@ == p@.take(i as int),
        decreases p@.len() - i,
    {
        path.push(p[i]);
        assert(p@.take(i + 1) =~= p@.take(i as int).push(p@[i as int]));
        i += 1;
    }
    assert(p@.take(i as int) =~= p@);
    path
}

/// A path as bytes that end in a zero, for C.
pub fn path_to_c_string(p: &Vec<u8>) -> (bytes: Vec<u8>)
    ensures
        bytes@ == p@.push(0),
{
    let mut bytes = fix_windows_verbatim_for_gcc(p);
    bytes.push(0);
    bytes
}

/// A copy is made only after a link has failed, a link is tried again only after something was in
/// the way, and the whole fails only with the copy; what has ended stays so.
pub proof fn law_a_copy_is_the_last_resort(last: LinkAction, event: LinkEvent, next: LinkAction)
    requires
        call_ensures(link_or_copy, (last, event), next),
    ensures
        next == LinkAction::RemoveAndHardLink ==> last == LinkAction::HardLink && event
            == LinkEvent::AlreadyExists,
        next == LinkAction::CopyBytes ==> event != LinkEvent::Succeeded && (last
            == LinkAction::HardLink || last == LinkAction::RemoveAndHardLink),
        next == LinkAction::Failed && last != LinkAction::Failed ==> last == LinkAction::CopyBytes
            && event != LinkEvent::Succeeded,
        next != LinkAction::HardLink || last == next,
        (last == LinkAction::HardLink || last == LinkAction::RemoveAndHardLink) && event
            == LinkEvent::Succeeded ==> next == LinkAction::Done(LinkOrCopy::Link),
        last == LinkAction::CopyBytes && event == LinkEvent::Succeeded ==> next
            == LinkAction::Done(LinkOrCopy::Copy),
        last == LinkAction::HardLink && event == LinkEvent::AlreadyExists ==> next
            == LinkAction::RemoveAndHardLink,
        last == LinkAction::Failed || last is Done ==> next == last,
{
}

/// A canonical path is used where there is one, and an absolute one only where there is none.
pub proof fn law_a_canonical_path_is_used(
    canonical: Option<String>,
    absolute: Option<String>,
    path: Option<String>,
)
    requires
        call_ensures(try_canonicalize, (canonical, absolute), path),
    ensures
        canonical is Some ==> path == canonical,
        canonical is None ==> path == absolute,
{
}

} // verus!
