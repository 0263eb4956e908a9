//! Errors of the engine.

use vstd::prelude::*;

verus! {

/// What can go wrong; each kind carries its message.
#[derive(Clone, Debug)]
pub enum Error {
    /// A query that cannot be searched for.
    Search(String),
    /// An operation that does not apply to the document.
    Unsupported(String),
    /// An argument that makes no sense.
    InvalidInput(String),
    /// Stored data that cannot be read back.
    Corrupted(String),
    /// A target that is taken.
    Conflict(String),
    /// A base file that changed while it was in use.
    BaseFileChanged(String),
}

/// An [`Error`] with its message as a sequence of characters.
pub enum ErrorView {
    Search(Seq<char>),
    Unsupported(Seq<char>),
    InvalidInput(Seq<char>),
    Corrupted(Seq<char>),
    Conflict(Seq<char>),
    BaseFileChanged(Seq<char>),
}

impl View for Error {
    type V = ErrorView;

    open spec fn view(&self) -> ErrorView {
        match self {
            Error::Search(m) => ErrorView::Search(m@),
            Error::Unsupported(m) => ErrorView::Unsupported(m@),
            Error::InvalidInput(m) => ErrorView::InvalidInput(m@),
            Error::Corrupted(m) => ErrorView::Corrupted(m@),
            Error::Conflict(m) => ErrorView::Conflict(m@),
            Error::BaseFileChanged(m) => ErrorView::BaseFileChanged(m@),
        }
    }
}

impl ErrorView {
    /// The message as it is shown to a user.
    pub open spec fn shown(self) -> Seq<char> {
        match self {
            ErrorView::Search(m) => "search error: "@ + m,
            ErrorView::Unsupported(m) => "unsupported: "@ + m,
            ErrorView::InvalidInput(m) => "invalid input: "@ + m,
            ErrorView::Corrupted(m) => "corrupted data: "@ + m,
            ErrorView::Conflict(m) => "conflict: "@ + m,
            ErrorView::BaseFileChanged(m) => "the file changed while it was open: "@ + m,
        }
    }
}

impl Error {
    /// A copy.
    pub fn copy(&self) -> (e: Error)
        ensures
            e@ == self@,
    {
        match self {
            Error::Search(t) => Error::Search(t.clone()),
            Error::Unsupported(t) => Error::Unsupported(t.clone()),
            Error::InvalidInput(t) => Error::InvalidInput(t.clone()),
            Error::Corrupted(t) => Error::Corrupted(t.clone()),
            Error::Conflict(t) => Error::Conflict(t.clone()),
            Error::BaseFileChanged(t) => Error::BaseFileChanged(t.clone()),
        }
    }

    /// The message as it is shown to a user.
    pub fn message(&self) -> (s: String)
        ensures
            s@ == self@.shown(),
    {
        match self {
            Error::Search(m) => "search error: ".to_owned().concat(m.as_str()),
            Error::Unsupported(m) => "unsupported: ".to_owned().concat(m.as_str()),
            Error::InvalidInput(m) => "invalid input: ".to_owned().concat(m.as_str()),
            Error::Corrupted(m) => "corrupted data: ".to_owned().concat(m.as_str()),
            Error::Conflict(m) => "conflict: ".to_owned().concat(m.as_str()),
            Error::BaseFileChanged(m) => {
                "the file changed while it was open: ".to_owned().concat(m.as_str())
            },
        }
    }
}

} // verus!
