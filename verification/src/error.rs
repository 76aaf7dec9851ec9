//! Why a run over a document tree was given up.

use vstd::prelude::*;

verus! {

/// The reason for which resolving a document tree stopped.
#[derive(Debug)]
pub enum Error {
    /// The document at this canonical path includes itself, directly or
    /// through the documents that it includes.
    ImportCycle(String),
    /// The file system refused a request; the text is its description.
    Io(String),
}

/// An [`Error`] as its mathematical value.
pub enum ErrorView {
    ImportCycle(Seq<char>),
    Io(Seq<char>),
}

impl View for Error {
    type V = ErrorView;

    open spec fn view(&self) -> ErrorView {
        match self {
            Error::ImportCycle(path) => ErrorView::ImportCycle(path@),
            Error::Io(description) => ErrorView::Io(description@),
        }
    }
}

impl ErrorView {
    /// The line that reports this error to a reader.
    pub open spec fn message(self) -> Seq<char> {
        match self {
            ErrorView::ImportCycle(path) => "File at "@ + path
                + " was imported multiple times"@,
            ErrorView::Io(description) => "IO Error: "@ + description,
        }
    }
}

impl Error {
    /// The line that reports this error to a reader.
    pub fn message(&self) -> (text: String)
        ensures
            text@ == self@.message(),
    {
        match self {
            Error::ImportCycle(path) => {
                let mut text = "File at ".to_owned();
                text.append(path.as_str());
                text.append(" was imported multiple times");
                text
            },
            Error::Io(description) => {
                let mut text = "IO Error: ".to_owned();
                text.append(description.as_str());
                text
            },
        }
    }
}

} // verus!
