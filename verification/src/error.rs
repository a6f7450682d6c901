//! What can go wrong with the log.
use crate::text;
use vstd::prelude::*;

verus! {

/// Errors that can occur during store operations.
#[derive(Clone, Debug, PartialEq, Eq)]
pub enum StoreError {
    /// Reading or writing failed, for the given reason.
    Io(String),
    /// An event could not be turned into JSON or back, for the given reason.
    Json { line: usize, source: String },
    /// There is no log at the given path.
    NotFound(String),
}

/// What an error says, with its strings as sequences of characters.
pub enum ErrorView {
    Io(Seq<char>),
    Json { line: nat, source: Seq<char> },
    NotFound(Seq<char>),
}

impl View for StoreError {
    type V = ErrorView;

    open spec fn view(&self) -> ErrorView {
        match self {
            StoreError::Io(reason) => ErrorView::Io(reason@),
            StoreError::Json { line, source } => ErrorView::Json {
                line: *line as nat,
                source: source@,
            },
            StoreError::NotFound(path) => ErrorView::NotFound(path@),
        }
    }
}

/// The message of an error.
pub open spec fn error_text(e: ErrorView) -> Seq<char> {
    match e {
        ErrorView::Io(reason) => "I/O error: "@ + reason,
        ErrorView::Json { line, source } => "JSON error at line "@ + text::decimal(line) + ": "@
            + source,
        ErrorView::NotFound(path) => "File not found: "@ + path,
    }
}

impl StoreError {
    /// The error of a log at `path` that could not be opened for the given reason.
    pub fn opening(path: &str, is_missing: bool, reason: &str) -> (r: StoreError)
        ensures
            r@ == (if is_missing {
                ErrorView::NotFound(path@)
            } else {
                ErrorView::Io(reason@)
            }),
    {
        if is_missing {
            StoreError::NotFound(String::from(path))
        } else {
            StoreError::Io(String::from(reason))
        }
    }

    /// The error of an event that could not be turned into JSON for the given reason: it belongs to
    /// no line of the log.
    pub fn encoding(reason: &str) -> (r: StoreError)
        ensures
            r@ == (ErrorView::Json { line: 0, source: reason@ }),
    {
        StoreError::Json { line: 0, source: String::from(reason) }
    }

    /// The message of the error.
    pub fn message(&self) -> (r: String)
        ensures
            r@ == error_text(self@),
    {
        match self {
            StoreError::Io(reason) => {
                let mut r = String::from("I/O error: ");
                r.append(reason.as_str());
                r
            },
            StoreError::Json { line, source } => {
                let mut r = String::from("JSON error at line ");
                r.append(text::decimal_text(*line).as_str());
                r.append(": ");
                r.append(source.as_str());
                r
            },
            StoreError::NotFound(path) => {
                let mut r = String::from("File not found: ");
                r.append(path.as_str());
                r
            },
        }
    }
}

} // verus!
