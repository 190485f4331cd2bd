//! A small git implementation: loose objects, trees, the smart-HTTP
//! upload-pack protocol and the command dispatcher, with their contracts.

use vstd::prelude::*;
use vstd::string::StringExecFns;
use crate::external::io_error_text;

pub mod bytes;
pub mod cli;
pub mod commit;
pub mod external;
pub mod numfmt;
pub mod object;
pub mod protocol;
pub mod repo;
pub mod snapshot;
pub mod text;
pub mod tree;

verus! {

broadcast use vstd::string::group_string_axioms;

/// Errors reported by the library.
#[derive(Debug)]
pub enum GitError {
    IOError(std::io::Error),
    ObjectError(String),
    CLIError(String),
    HttpError(String),
}

impl GitError {
    /// The error as the program prints it: its message and a newline. The
    /// message of an I/O error is the operating system's.
    pub fn to_string(&self) -> (r: String)
        ensures
            r@.len() > 0,
            r@.last() == '\n',
            match self {
                GitError::IOError(_) => true,
                GitError::ObjectError(m) => r@ == m@.push('\n'),
                GitError::CLIError(m) => r@ == m@.push('\n'),
                GitError::HttpError(m) => r@ == m@.push('\n'),
            },
    {
        let mut text = match self {
            GitError::IOError(e) => io_error_text(e),
            GitError::ObjectError(m) => m.clone(),
            GitError::CLIError(m) => m.clone(),
            GitError::HttpError(m) => m.clone(),
        };
        text.append("\n");
        proof {
            reveal_strlit("\n");
        }
        text
    }
}

/// Result type used throughout the library.
pub type GitResult<T> = Result<T, GitError>;

/// A failure the program does not recover from: the caller stops with this
/// message.
#[derive(Debug)]
pub struct Abort {
    pub message: String,
}

/// How an operation ends early: with an error, or with a stop.
#[derive(Debug)]
pub enum Failure {
    Git(GitError),
    Aborted(Abort),
}

/// An abort with the given message.
pub fn abort(message: &str) -> (a: Abort)
    ensures
        a.message@ == message@,
{
    Abort { message: message.to_string() }
}

} // verus!
