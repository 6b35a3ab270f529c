//! Entries of the in-memory filesystem.

use super::MemPermissions;
use std::time::SystemTime;
use vstd::prelude::*;

verus! {

/// `std::time::SystemTime`: a point in time as the clock reported it.
/// Values of it are carried along and handed out, never looked into.
#[verifier::external_type_specification]
#[verifier::external_body]
pub struct ExSystemTime(SystemTime);

/// `SystemTime` is `Copy`: its `clone` returns the time it is called on.
pub assume_specification[ <SystemTime as Clone>::clone ](t: &SystemTime) -> (r: SystemTime)
    ensures
        r == *t,
;

/// `SystemTime::now` reads the system clock. Nothing is claimed of the
/// value it returns.
#[verifier::external_body]
pub(crate) fn now() -> SystemTime {
    SystemTime::now()
}

/// What an entry is.
#[derive(Clone, Copy, Debug, PartialEq, Eq, Structural)]
pub enum InodeType {
    File,
    Dir,
    Symlink,
}

/// The mathematical model of an entry.
pub struct InodeView {
    pub serial: u64,
    pub kind: InodeType,
    pub mode: u32,
    pub path: Seq<char>,
    pub uid: u32,
    pub gid: u32,
    pub size: u64,
    pub atime: SystemTime,
    pub mtime: SystemTime,
    pub ctime: SystemTime,
    pub buffer: Seq<u8>,
    pub symlink_target: Option<Seq<char>>,
}

impl InodeView {
    /// A symlink has a target.
    pub open spec fn wf(self) -> bool {
        self.kind == InodeType::Symlink ==> self.symlink_target is Some
    }

    /// Everything that a constructor fixes: all fields but the three times,
    /// which are read from the clock.
    pub open spec fn is_new(
        self,
        serial: u64,
        kind: InodeType,
        mode: u32,
        path: Seq<char>,
        buffer: Seq<u8>,
        symlink_target: Option<Seq<char>>,
    ) -> bool {
        &&& self.serial == serial
        &&& self.kind == kind
        &&& self.mode == mode
        &&& self.path == path
        &&& self.uid == 0
        &&& self.gid == 0
        &&& self.size == 0
        &&& self.buffer == buffer
        &&& self.symlink_target == symlink_target
    }
}

/// An entry: a file, a directory or a symlink, with its contents and
/// attributes.
#[derive(Debug, PartialEq, Eq, Clone)]
pub struct Inode {
    serial: u64,
    kind: InodeType,
    mode: MemPermissions,
    path: String,
    uid: u32,
    gid: u32,
    size: u64,
    atime: SystemTime,
    mtime: SystemTime,
    ctime: SystemTime,
    buffer: Vec<u8>,
    symlink_target: Option<String>,
}

impl View for Inode {
    type V = InodeView;

    closed spec fn view(&self) -> InodeView {
        InodeView {
            serial: self.serial,
            kind: self.kind,
            mode: self.mode.mode,
            path: self.path@,
            uid: self.uid,
            gid: self.gid,
            size: self.size,
            atime: self.atime,
            mtime: self.mtime,
            ctime: self.ctime,
            buffer: self.buffer@,
            symlink_target: match self.symlink_target {
                Some(t) => Some(t@),
                None => None,
            },
        }
    }
}

impl Inode {
    /// The serial number of the entry.
    pub fn serial(&self) -> (r: &u64)
        ensures
            *r == self@.serial,
    {
        &self.serial
    }

    /// What the entry is.
    pub fn kind(&self) -> (r: &InodeType)
        ensures
            *r == self@.kind,
    {
        &self.kind
    }

    /// The permission bits of the entry.
    pub fn mode(&self) -> (r: &MemPermissions)
        ensures
            r.mode == self@.mode,
    {
        &self.mode
    }

    /// The path that the entry was created at, or last moved to.
    pub fn path(&self) -> (r: &String)
        ensures
            r@ == self@.path,
    {
        &self.path
    }

    /// The user that owns the entry.
    pub fn uid(&self) -> (r: &u32)
        ensures
            *r == self@.uid,
    {
        &self.uid
    }

    /// The group that owns the entry.
    pub fn gid(&self) -> (r: &u32)
        ensures
            *r == self@.gid,
    {
        &self.gid
    }

    /// The advisory size of the entry, which need not be the length of its
    /// contents.
    pub fn size(&self) -> (r: &u64)
        ensures
            *r == self@.size,
    {
        &self.size
    }

    /// When the entry was last read: the time it was created.
    pub fn atime(&self) -> (r: &SystemTime)
        ensures
            *r == self@.atime,
    {
        &self.atime
    }

    /// When the entry was last changed: the time it was created.
    pub fn mtime(&self) -> (r: &SystemTime)
        ensures
            *r == self@.mtime,
    {
        &self.mtime
    }

    /// When the entry was created.
    pub fn ctime(&self) -> (r: &SystemTime)
        ensures
            *r == self@.ctime,
    {
        &self.ctime
    }

    /// The contents of the entry.
    pub fn buffer(&self) -> (r: &Vec<u8>)
        ensures
            r@ == self@.buffer,
    {
        &self.buffer
    }

    /// Where the entry leads, if it is a symlink.
    pub fn symlink_target(&self) -> (r: &Option<String>)
        ensures
            match *r {
                Some(t) => self@.symlink_target == Some(t@),
                None => self@.symlink_target is None,
            },
    {
        &self.symlink_target
    }

    /// Gives the entry another serial number.
    pub fn set_serial(&mut self, serial: u64)
        ensures
            final(self)@ == (InodeView { serial, ..old(self)@ }),
    {
        self.serial = serial;
    }

    /// Records the path that the entry is found at.
    pub fn set_path(&mut self, path: &str)
        ensures
            final(self)@ == (InodeView { path: path@, ..old(self)@ }),
    {
        self.path = path.to_owned();
    }

    /// Records the owner of the entry.
    pub fn set_ownership(&mut self, uid: u32, gid: u32)
        ensures
            final(self)@ == (InodeView { uid, gid, ..old(self)@ }),
    {
        self.uid = uid;
        self.gid = gid;
    }

    /// The length of the contents.
    pub fn len(&self) -> (r: u64)
        ensures
            r == self@.buffer.len(),
    {
        self.buffer.len() as u64
    }

    /// Records `size` as the entry's advisory size. The contents are left
    /// as they are.
    pub fn set_len(&mut self, size: u64)
        ensures
            final(self)@ == (InodeView { size, ..old(self)@ }),
    {
        self.size = size;
    }

    /// Sets the permission bits of the entry.
    pub fn set_permissions(&mut self, mode: MemPermissions)
        ensures
            final(self)@ == (InodeView { mode: mode.mode, ..old(self)@ }),
    {
        self.mode = mode;
    }

    /// The permission bits of the entry.
    pub fn permissions(&self) -> (r: MemPermissions)
        ensures
            r.mode == self@.mode,
    {
        self.mode
    }

    /// The contents of the entry.
    pub fn buffer_view(&self) -> (r: &[u8])
        ensures
            r@ == self@.buffer,
    {
        self.buffer.as_slice()
    }

    /// The contents of the entry, to change them.
    pub fn buffer_mut(&mut self) -> (r: &mut Vec<u8>)
        ensures
            r@ == old(self)@.buffer,
            final(self)@ == (InodeView { buffer: final(r)@, ..old(self)@ }),
    {
        &mut self.buffer
    }

    /// A new directory, with mode `0o755`.
    pub fn new_dir(next_inode: u64, path: &str) -> (r: Inode)
        ensures
            r@.is_new(next_inode, InodeType::Dir, 0o755, path@, Seq::empty(), None),
    {
        Inode {
            serial: next_inode,
            kind: InodeType::Dir,
            mode: MemPermissions { mode: 0o755 },
            path: path.to_owned(),
            uid: 0,
            gid: 0,
            size: 0,
            atime: now(),
            mtime: now(),
            ctime: now(),
            buffer: Vec::new(),
            symlink_target: None,
        }
    }

    /// A new file with the given contents, with mode `0o644`.
    pub fn new_file(next_inode: u64, path: &str, data: Vec<u8>) -> (r: Inode)
        ensures
            r@.is_new(next_inode, InodeType::File, 0o644, path@, data@, None),
    {
        Inode {
            serial: next_inode,
            kind: InodeType::File,
            mode: MemPermissions { mode: 0o644 },
            path: path.to_owned(),
            uid: 0,
            gid: 0,
            size: 0,
            atime: now(),
            mtime: now(),
            ctime: now(),
            buffer: data,
            symlink_target: None,
        }
    }

    /// A new symlink to `target`, with mode `0o777`. The target is kept as
    /// given.
    pub fn new_symlink(next_inode: u64, path: &str, target: &str) -> (r: Inode)
        ensures
            r@.is_new(next_inode, InodeType::Symlink, 0o777, path@, Seq::empty(), Some(target@)),
    {
        Inode {
            serial: next_inode,
            kind: InodeType::Symlink,
            mode: MemPermissions { mode: 0o777 },
            path: path.to_owned(),
            uid: 0,
            gid: 0,
            size: 0,
            atime: now(),
            mtime: now(),
            ctime: now(),
            buffer: Vec::new(),
            symlink_target: Some(target.to_owned()),
        }
    }
}

} // verus!
