//! The kinds of failure that filesystem operations report.

use vstd::prelude::*;

verus! {

/// Why an operation failed.
#[derive(Clone, Copy, Debug, PartialEq, Eq, Structural)]
pub enum FloppyError {
    /// The path, or a directory above it, does not exist.
    NotFound,
    /// Something already exists where nothing may.
    AlreadyExists,
    /// The operation does not apply to this kind of entry, or to this
    /// argument.
    InvalidInput,
    /// The contents are not valid UTF-8 where text was asked for.
    InvalidData,
    /// The filesystem cannot serve the request: a symlink without a target
    /// or with a dangling one, or no serial number left to hand out.
    Other,
    /// The operation is not implemented.
    Unsupported,
    /// A chain of symlinks is longer than the filesystem follows.
    TooManyLinks,
}

} // verus!
