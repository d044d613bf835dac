//! The hard-failure surface of the pipeline: a top-level source path that
//! does not exist, a discovered file that cannot be opened, or a pattern
//! string that does not compile. Everything else degrades to smaller results.
use vstd::prelude::*;

verus! {

/// The errors the pipeline can signal. `cause` carries the underlying I/O
/// reason as reported by the caller that probed the filesystem.
#[derive(Debug)]
pub enum FortuneError {
    /// A top-level source path failed its existence check.
    PathNotFound { path: String, cause: String },
    /// A discovered file could not be opened for reading.
    FileOpenError { path: String, cause: String },
    /// A pattern string was not a valid regular expression.
    InvalidPattern { pattern: String },
}

} // verus!
