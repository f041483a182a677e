//! The failures that the library reports to its callers.

use vstd::prelude::*;
use vstd::string::StringExecFns;

verus! {

/// What a fallible function of the library returns.
pub type Result<T> = std::result::Result<T, Error>;

/// Why a task could not be set up.
///
/// Each variant carries the identifier that no naming convention fits.
#[derive(Debug)]
pub enum Error {
    /// The identifier to look for fits no convention.
    CandidateCasing(String),
    /// The identifier to put in its place fits no convention.
    RenameCasing(String),
    /// An identifier fits no convention, or cannot be split by the one named.
    Custom(String),
}

impl Error {
    /// The text that the variant carries.
    pub open spec fn detail(self) -> Seq<char> {
        match self {
            Error::CandidateCasing(s) => s@,
            Error::RenameCasing(s) => s@,
            Error::Custom(s) => s@,
        }
    }

    /// The line shown when the variant carries no text.
    pub open spec fn fallback(self) -> Seq<char> {
        match self {
            Error::CandidateCasing(_) => "Failed to detect casing for candidate term"@,
            Error::RenameCasing(_) => "Failed to detect casing for rename term"@,
            Error::Custom(_) => "An unexpectd error occurred"@,
        }
    }

    /// What [`Error::message`] returns: the carried text, or the fallback
    /// line where that text is empty.
    pub open spec fn message_text(self) -> Seq<char> {
        if self.detail().len() == 0 {
            self.fallback()
        } else {
            self.detail()
        }
    }

    /// The message to show for this error.
    pub fn message(&self) -> (r: String)
        ensures
            r@ == self.message_text(),
    {
        match self {
            Error::CandidateCasing(s) => {
                if s.as_str().is_empty() {
                    String::from_str("Failed to detect casing for candidate term")
                } else {
                    s.clone()
                }
            },
            Error::RenameCasing(s) => {
                if s.as_str().is_empty() {
                    String::from_str("Failed to detect casing for rename term")
                } else {
                    s.clone()
                }
            },
            Error::Custom(s) => {
                if s.as_str().is_empty() {
                    String::from_str("An unexpectd error occurred")
                } else {
                    s.clone()
                }
            },
        }
    }
}

} // verus!
