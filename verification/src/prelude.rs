//! The names that most callers need.

pub use crate::error::FloppyError;
pub use crate::mem::file::{MemFile, MemOpenOptions};
pub use crate::mem::{
    MemDirBuilder, MemDirEntry, MemFileType, MemFloppyDisk, MemMetadata, MemPermissions,
    MemReadDir,
};
pub use crate::tokio_fs::TokioFloppyDisk;
pub use crate::{
    FloppyFileType, FloppyMetadata, FloppyPermissions, FloppyUnixMetadata, FloppyUnixPermissions,
};
