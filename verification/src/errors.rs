//! The error taxonomy of the shortcut manager.

use vstd::prelude::*;

verus! {

/// Why an operation on the shortcut store or resolver failed.
#[derive(Clone, Copy, Debug, PartialEq, Eq, Structural)]
pub enum Error {
    /// The backing resource was unreadable, unwritable, or held a document
    /// that does not decode as a shortcut collection.
    StorageError,
    /// A shortcut was created or replaced with a structurally invalid
    /// command (an empty one).
    ValidationError,
    /// No shortcut matches the given name, or a path has no directory
    /// component to resolve.
    NotFoundError,
    /// The running platform has no file-opener program mapping.
    UnsupportedPlatformError,
    /// A command could not be turned into an invocation, or spawning or
    /// waiting on one failed.
    ExecutionError,
}

impl Error {
    /// A short human-readable description, for display by a host program.
    pub fn describe(&self) -> (r: &'static str)
        ensures
            self is StorageError ==> r@ == "cannot read or write the shortcut store"@,
            self is ValidationError ==> r@ == "command cannot be empty"@,
            self is NotFoundError ==> r@ == "not found"@,
            self is UnsupportedPlatformError ==> r@ == "unsupported operating system"@,
            self is ExecutionError ==> r@ == "cannot run the command"@,
    {
        match self {
            Error::StorageError => "cannot read or write the shortcut store",
            Error::ValidationError => "command cannot be empty",
            Error::NotFoundError => "not found",
            Error::UnsupportedPlatformError => "unsupported operating system",
            Error::ExecutionError => "cannot run the command",
        }
    }
}

} // verus!
