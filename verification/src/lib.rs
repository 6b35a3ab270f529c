//! A filesystem abstraction whose in-memory backend is a path-addressed
//! virtual filesystem: directories, files and symlinks kept in one ordered
//! table, with every operation specified over a mathematical model.

use crate::error::FloppyError;
use std::time::SystemTime;
use vstd::prelude::*;

pub mod error;
pub mod mem;
pub mod path;
pub mod prelude;
mod table;
pub mod tokio_fs;

verus! {

/// Permission bits of an entry, as far as every platform has them.
pub trait FloppyPermissions {
    /// The permissions allow no writing.
    spec fn is_readonly(&self) -> bool;

    /// Whether the permissions allow no writing.
    fn readonly(&self) -> (r: bool)
        ensures
            r == self.is_readonly(),
    ;

    /// Allows writing, or forbids it.
    fn set_readonly(&mut self, readonly: bool)
        ensures
            final(self).is_readonly() == readonly,
    ;
}

/// Permission bits of an entry as a unix mode.
pub trait FloppyUnixPermissions: Sized {
    /// The mode that the permissions stand for.
    spec fn mode_bits(&self) -> u32;

    /// The mode that the permissions stand for.
    fn mode(&self) -> (r: u32)
        ensures
            r == self.mode_bits(),
    ;

    /// Replaces the mode.
    fn set_mode(&mut self, mode: u32)
        ensures
            final(self).mode_bits() == mode,
    ;

    /// The permissions that stand for `mode`.
    fn from_mode(mode: u32) -> (r: Self)
        ensures
            r.mode_bits() == mode,
    ;
}

/// The kind of an entry.
pub trait FloppyFileType {
    fn is_dir(&self) -> bool;

    fn is_file(&self) -> bool;

    fn is_symlink(&self) -> bool;
}

/// The attributes of an entry.
pub trait FloppyMetadata {
    type FileType: FloppyFileType;

    type Permissions: FloppyPermissions;

    fn file_type(&self) -> Self::FileType;

    fn is_dir(&self) -> bool;

    fn is_file(&self) -> bool;

    fn is_symlink(&self) -> bool;

    fn len(&self) -> u64;

    fn permissions(&self) -> Self::Permissions;

    fn modified(&self) -> Result<SystemTime, FloppyError>;

    fn accessed(&self) -> Result<SystemTime, FloppyError>;

    fn created(&self) -> Result<SystemTime, FloppyError>;
}

/// The owner of an entry.
pub trait FloppyUnixMetadata {
    fn uid(&self) -> Result<u32, FloppyError>;

    fn gid(&self) -> Result<u32, FloppyError>;
}

} // verus!
