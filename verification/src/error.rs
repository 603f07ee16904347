//! The error taxonomy of the library.

use vstd::prelude::*;

verus! {

/// One error value per failure class: filesystem trouble (with the offending
/// path), a malformed object, a malformed index, a configuration failure, and
/// everything else.
#[derive(Debug)]
pub enum GitError {
    PathError(String, String),
    ObjectError(String),
    IndexError(String),
    ConfigError(String),
    GenericError(String),
}

impl GitError {
    /// A single human-readable line describing the error.
    pub fn message(&self) -> (r: String)
        ensures
            r@ == self.spec_message(),
    {
        match self {
            GitError::PathError(m, p) => {
                let mut out = m.clone();
                out.append(": ");
                out.append(p.as_str());
                out
            },
            GitError::ObjectError(m) => m.clone(),
            GitError::IndexError(m) => m.clone(),
            GitError::ConfigError(m) => m.clone(),
            GitError::GenericError(m) => m.clone(),
        }
    }

    /// What `message` returns, as a sequence of characters.
    pub open spec fn spec_message(&self) -> Seq<char> {
        match self {
            GitError::PathError(m, p) => m@ + ": "@ + p@,
            GitError::ObjectError(m) => m@,
            GitError::IndexError(m) => m@,
            GitError::ConfigError(m) => m@,
            GitError::GenericError(m) => m@,
        }
    }
}

} // verus!
