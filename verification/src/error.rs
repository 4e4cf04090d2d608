//! The errors that end start-up.

use vstd::prelude::*;
use vstd::string::*;

verus! {

/// Why start-up cannot go on. Each variant that carries a text carries the
/// whole message, ready to be shown.
#[derive(Debug, Clone, PartialEq, Eq)]
pub enum StartupError {
    /// A setting is missing, or cannot be read as what it stands for.
    Configuration(String),
    /// The datastore could not be reached, or turned the connection down.
    Connection(String),
    /// The pool slot had been filled before.
    AlreadyInitialized,
}

/// A `StartupError` with its texts as sequences of characters.
pub enum StartupErrorView {
    Configuration(Seq<char>),
    Connection(Seq<char>),
    AlreadyInitialized,
}

impl View for StartupError {
    type V = StartupErrorView;

    open spec fn view(&self) -> StartupErrorView {
        match self {
            StartupError::Configuration(text) => StartupErrorView::Configuration(text@),
            StartupError::Connection(text) => StartupErrorView::Connection(text@),
            StartupError::AlreadyInitialized => StartupErrorView::AlreadyInitialized,
        }
    }
}

impl StartupErrorView {
    /// The message that the error shows.
    pub open spec fn message(self) -> Seq<char> {
        match self {
            StartupErrorView::Configuration(text) => text,
            StartupErrorView::Connection(text) => text,
            StartupErrorView::AlreadyInitialized => "Database already initialized"@,
        }
    }
}

impl StartupError {
    /// The message that the error shows.
    pub fn message(&self) -> (text: String)
        ensures
            text@ == self@.message(),
    {
        match self {
            StartupError::Configuration(text) => text.clone(),
            StartupError::Connection(text) => text.clone(),
            StartupError::AlreadyInitialized => String::from_str("Database already initialized"),
        }
    }
}

} // verus!
