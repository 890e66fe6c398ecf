//! What can go wrong, and with what message.
use std::path::PathBuf;

use vstd::prelude::*;

use crate::paths::path_bytes;

verus! {

/// Everything a request can fail with.
#[derive(Debug)]
pub enum Error {
    /// A file could not be read or replaced.
    Io { path: PathBuf, source: String },
    /// The file is an ELF file that this library does not handle.
    Unsupported(String),
    /// The file is malformed.
    Parse(String),
    /// The file lacks what the request needs.
    Missing(String),
    /// The edited image cannot be written.
    Serialize(String),
    /// The edited image would not load.
    Constraint(String),
    /// The request itself is malformed.
    Cli(String),
}

/// An [`Error`] with its texts and its path as sequences.
pub enum ErrorView {
    Io { path: Seq<u8>, source: Seq<char> },
    Unsupported(Seq<char>),
    Parse(Seq<char>),
    Missing(Seq<char>),
    Serialize(Seq<char>),
    Constraint(Seq<char>),
    Cli(Seq<char>),
}

impl View for Error {
    type V = ErrorView;

    open spec fn view(&self) -> ErrorView {
        match self {
            Error::Io { path, source } => ErrorView::Io {
                path: path_bytes(*path),
                source: source@,
            },
            Error::Unsupported(t) => ErrorView::Unsupported(t@),
            Error::Parse(t) => ErrorView::Parse(t@),
            Error::Missing(t) => ErrorView::Missing(t@),
            Error::Serialize(t) => ErrorView::Serialize(t@),
            Error::Constraint(t) => ErrorView::Constraint(t@),
            Error::Cli(t) => ErrorView::Cli(t@),
        }
    }
}

pub type Result<T> = std::result::Result<T, Error>;

/// The outcome of a step that either succeeds with a `T` or fails.
pub type Outcome<T> = std::result::Result<T, ErrorView>;

} // verus!
