//! What can go wrong with a PDS recording.
use vstd::prelude::*;

verus! {

/// Why a PDS recording could not be read.
#[derive(Debug)]
pub enum PdsError {
    /// The file could not be read.
    Io { path: String, source: String },
    /// The pattern is no valid glob.
    Glob { pattern: String, source: String },
    /// The pattern matched nothing.
    NoFiles(String),
    /// The file is no PDS recording that can be understood.
    Invalid { path: String, message: String },
}

impl PdsError {
    /// The text of the message.
    pub open spec fn message_text(self) -> Seq<char> {
        match self {
            PdsError::Io { path, source } => "I/O error for "@ + path@ + ": "@ + source@,
            PdsError::Glob { pattern, source } => "invalid glob "@ + pattern@ + ": "@ + source@,
            PdsError::NoFiles(pattern) => "no files matched "@ + pattern@,
            PdsError::Invalid { path, message } => "invalid PDS file "@ + path@ + ": "@ + message@,
        }
    }

    /// Whether this says that the file at `path` is invalid, with the given message.
    pub open spec fn says_invalid(self, path: Seq<char>, message: Seq<char>) -> bool {
        self matches PdsError::Invalid { path: p, message: m } && p@ == path && m@ == message
    }

    /// The message for the user.
    pub fn message(&self) -> (text: String)
        ensures
            text@ == self.message_text(),
    {
        match self {
            PdsError::Io { path, source } => {
                let mut text = "I/O error for ".to_owned();
                text.append(path.as_str());
                text.append(": ");
                text.append(source.as_str());
                text
            },
            PdsError::Glob { pattern, source } => {
                let mut text = "invalid glob ".to_owned();
                text.append(pattern.as_str());
                text.append(": ");
                text.append(source.as_str());
                text
            },
            PdsError::NoFiles(pattern) => {
                let mut text = "no files matched ".to_owned();
                text.append(pattern.as_str());
                text
            },
            PdsError::Invalid { path, message } => {
                let mut text = "invalid PDS file ".to_owned();
                text.append(path.as_str());
                text.append(": ");
                text.append(message.as_str());
                text
            },
        }
    }
}

/// The error for a file that is no PDS recording that can be understood.
pub fn invalid(path: &str, message: &str) -> (error: PdsError)
    ensures
        error.says_invalid(path@, message@),
{
    PdsError::Invalid { path: path.to_owned(), message: message.to_owned() }
}

} // verus!
