//! The in-memory filesystem.

use crate::error::FloppyError;
use crate::path::{
    lemma_prefix, normalize, normalized, rendered, strictly_sorted, FloppyPath, PathView,
};
use crate::table::{has_key, PathTable};
use crate::{
    FloppyFileType, FloppyMetadata, FloppyPermissions, FloppyUnixMetadata, FloppyUnixPermissions,
};
use arena::NodeArena;
use inode::{Inode, InodeType, InodeView};
use model::{rekeyed, written, DiskView, MAX_SYMLINK_HOPS};
use std::time::SystemTime;
use vstd::prelude::*;

mod arena;
pub mod file;
pub mod inode;
pub mod laws;
pub mod model;

pub use file::{MemFile, MemOpenOptions};
pub use model::SeekFrom;

verus! {

/// The write bits of a unix mode: owner, group and others.
pub const WRITE_BITS: u32 = 0o222;

/// Permission bits of an entry of the in-memory filesystem.
#[derive(Clone, Copy, Debug, PartialEq, Eq, Structural)]
pub struct MemPermissions {
    pub mode: u32,
}

impl FloppyPermissions for MemPermissions {
    /// No write bit is set.
    open spec fn is_readonly(&self) -> bool {
        self.mode & WRITE_BITS == 0
    }

    /// Whether no write bit is set.
    fn readonly(&self) -> (r: bool)
        ensures
            r == (self.mode & WRITE_BITS == 0),
    {
        self.mode & WRITE_BITS == 0
    }

    /// Clears every write bit, or sets every one.
    fn set_readonly(&mut self, readonly: bool)
        ensures
            final(self).mode == if readonly {
                old(self).mode & !WRITE_BITS
            } else {
                old(self).mode | WRITE_BITS
            },
            (final(self).mode & WRITE_BITS == 0) == readonly,
    {
        let m: u32 = self.mode;
        assert((m & !0o222u32) & 0o222u32 == 0) by (bit_vector);
        assert((m | 0o222u32) & 0o222u32 != 0) by (bit_vector);
        if readonly {
            self.mode = m & !WRITE_BITS;
        } else {
            self.mode = m | WRITE_BITS;
        }
    }
}

impl FloppyUnixPermissions for MemPermissions {
    open spec fn mode_bits(&self) -> u32 {
        self.mode
    }

    fn mode(&self) -> (r: u32)
        ensures
            r == self.mode,
    {
        self.mode
    }

    fn set_mode(&mut self, mode: u32)
        ensures
            final(self).mode == mode,
    {
        self.mode = mode;
    }

    fn from_mode(mode: u32) -> (r: Self)
        ensures
            r.mode == mode,
    {
        Self { mode }
    }
}

/// The kind of an entry of the in-memory filesystem.
#[derive(Clone, Copy, Debug, PartialEq, Eq, Structural)]
pub struct MemFileType(pub InodeType);

impl FloppyFileType for MemFileType {
    fn is_dir(&self) -> (r: bool)
        ensures
            r == (self.0 == InodeType::Dir),
    {
        match self.0 {
            InodeType::Dir => true,
            _ => false,
        }
    }

    fn is_file(&self) -> (r: bool)
        ensures
            r == (self.0 == InodeType::File),
    {
        match self.0 {
            InodeType::File => true,
            _ => false,
        }
    }

    fn is_symlink(&self) -> (r: bool)
        ensures
            r == (self.0 == InodeType::Symlink),
    {
        match self.0 {
            InodeType::Symlink => true,
            _ => false,
        }
    }
}

/// The attributes of an entry at the moment they were asked for.
#[derive(Clone, Copy, Debug)]
pub struct MemMetadata {
    pub serial: u64,
    pub file_type: MemFileType,
    pub len: u64,
    pub size: u64,
    pub permissions: MemPermissions,
    pub modified: SystemTime,
    pub accessed: SystemTime,
    pub created: SystemTime,
    pub uid: u32,
    pub gid: u32,
}

/// The attributes of an entry: its serial number, its kind, the length of
/// its contents, its advisory size, its mode, its three times and its
/// owner.
pub open spec fn metadata_of(inode: InodeView) -> MemMetadata {
    MemMetadata {
        serial: inode.serial,
        file_type: MemFileType(inode.kind),
        len: inode.buffer.len() as u64,
        size: inode.size,
        permissions: MemPermissions { mode: inode.mode },
        modified: inode.mtime,
        accessed: inode.atime,
        created: inode.ctime,
        uid: inode.uid,
        gid: inode.gid,
    }
}

impl MemMetadata {
    /// The attributes of `inode`.
    pub fn of(inode: &Inode) -> (r: MemMetadata)
        ensures
            r == metadata_of(inode@),
    {
        MemMetadata {
            serial: *inode.serial(),
            file_type: MemFileType(*inode.kind()),
            len: inode.len(),
            size: *inode.size(),
            permissions: inode.permissions(),
            modified: *inode.mtime(),
            accessed: *inode.atime(),
            created: *inode.ctime(),
            uid: *inode.uid(),
            gid: *inode.gid(),
        }
    }
}

impl FloppyMetadata for MemMetadata {
    type FileType = MemFileType;

    type Permissions = MemPermissions;

    fn file_type(&self) -> (r: MemFileType)
        ensures
            r == self.file_type,
    {
        self.file_type
    }

    fn is_dir(&self) -> (r: bool)
        ensures
            r == (self.file_type.0 == InodeType::Dir),
    {
        self.file_type.is_dir()
    }

    fn is_file(&self) -> (r: bool)
        ensures
            r == (self.file_type.0 == InodeType::File),
    {
        self.file_type.is_file()
    }

    fn is_symlink(&self) -> (r: bool)
        ensures
            r == (self.file_type.0 == InodeType::Symlink),
    {
        self.file_type.is_symlink()
    }

    fn len(&self) -> (r: u64)
        ensures
            r == self.len,
    {
        self.len
    }

    fn permissions(&self) -> (r: MemPermissions)
        ensures
            r == self.permissions,
    {
        self.permissions
    }

    fn modified(&self) -> (r: Result<SystemTime, FloppyError>)
        ensures
            r == Ok::<SystemTime, FloppyError>(self.modified),
    {
        Ok(self.modified)
    }

    fn accessed(&self) -> (r: Result<SystemTime, FloppyError>)
        ensures
            r == Ok::<SystemTime, FloppyError>(self.accessed),
    {
        Ok(self.accessed)
    }

    fn created(&self) -> (r: Result<SystemTime, FloppyError>)
        ensures
            r == Ok::<SystemTime, FloppyError>(self.created),
    {
        Ok(self.created)
    }
}

impl FloppyUnixMetadata for MemMetadata {
    fn uid(&self) -> (r: Result<u32, FloppyError>)
        ensures
            r == Ok::<u32, FloppyError>(self.uid),
    {
        Ok(self.uid)
    }

    fn gid(&self) -> (r: Result<u32, FloppyError>)
        ensures
            r == Ok::<u32, FloppyError>(self.gid),
    {
        Ok(self.gid)
    }
}

/// The in-memory filesystem: an entry table over a store of entries.
#[derive(Debug)]
pub struct MemFloppyDisk {
    table: PathTable,
    nodes: NodeArena,
    next_serial: u64,
}

impl View for MemFloppyDisk {
    type V = DiskView;

    closed spec fn view(&self) -> DiskView {
        DiskView {
            table: self.table@,
            nodes: self.nodes@,
            next_id: self.nodes.next_id(),
            next_serial: self.next_serial,
        }
    }
}

impl MemFloppyDisk {
    /// The entry table is in order.
    pub closed spec fn table_wf(&self) -> bool {
        self.table.wf()
    }

    /// The filesystem is consistent: its table is in order, and its model
    /// is consistent.
    pub open spec fn wf(&self) -> bool {
        self.table_wf() && self@.wf()
    }

    /// The table is in order, and the table and the store fit together.
    pub open spec fn fits(&self) -> bool {
        self.table_wf() && self@.fits()
    }

    /// Whether no serial number, or no id, is left to hand out.
    pub(crate) fn is_exhausted(&self) -> (r: bool)
        ensures
            r == self@.exhausted(),
    {
        self.next_serial == u64::MAX || self.nodes.next() == usize::MAX
    }

    /// Puts the new entry `inode` at `p`, in place of whatever was there.
    fn link_new(&mut self, p: FloppyPath, inode: Inode)
        requires
            old(self).wf(),
            p@.clean(),
            old(self)@.placeable(p@),
            !old(self)@.is_dir_at(p@),
            inode@.wf(),
            inode@.serial == old(self)@.next_serial,
            !old(self)@.exhausted(),
        ensures
            final(self).wf(),
            final(self)@ == old(self)@.with_new(p@, inode@),
    {
        proof {
            self@.lemma_unlinked(p@);
        }
        let id = self.nodes.store(inode);
        let before = self.table.insert(p, id);
        match before {
            Some(old_id) => {
                if self.nodes.handles(old_id) == 0 {
                    self.nodes.free(old_id);
                }
            },
            None => {},
        }
        self.next_serial = self.next_serial + 1;
        proof {
            let u = old(self)@.unlinked(p@);
            assert(self@.table =~= u.table.insert(p@, id));
            assert(self@.nodes =~= u.nodes.insert(
                id,
                model::NodeView { inode: inode@, handles: 0 },
            ));
            old(self)@.lemma_with_new_closed(p@, inode@);
        }
    }

    /// A filesystem that holds the root directory and nothing else.
    pub fn new() -> (r: MemFloppyDisk)
        ensures
            r.wf(),
            r@ == DiskView::empty().with_new(PathView::root(), r@.inode_at(PathView::root())),
            r@.inode_at(PathView::root()).is_new(
                0,
                InodeType::Dir,
                0o755,
                rendered(PathView::root()),
                Seq::empty(),
                None,
            ),
    {
        let mut disk = MemFloppyDisk {
            table: PathTable::new(),
            nodes: NodeArena::new(),
            next_serial: 0,
        };
        let root = FloppyPath::root();
        let text = root.render();
        let inode = Inode::new_dir(0, text.as_str());
        proof {
            assert(disk@ == DiskView::empty());
        }
        disk.link_new(root, inode);
        proof {
            DiskView::empty().lemma_with_new(PathView::root(), inode@);
        }
        disk
    }
}

/// `String::from_utf8` turns bytes into the string that they encode, and
/// fails exactly when they are not valid UTF-8.
#[verifier::external_body]
fn string_from_utf8(bytes: Vec<u8>) -> (r: Option<String>)
    ensures
        match r {
            Some(s) => vstd::utf8::valid_utf8(bytes@) && s@ == vstd::utf8::decode_utf8(bytes@),
            None => !vstd::utf8::valid_utf8(bytes@),
        },
{
    String::from_utf8(bytes).ok()
}

/// `x` is the new key of one of the first `i` pairs of `e`.
pub open spec fn rekeyed_among(
    e: Seq<(PathView, usize)>,
    i: int,
    from: PathView,
    to: PathView,
    x: PathView,
) -> bool {
    exists|j: int| 0 <= j < i && rekeyed(#[trigger] e[j].0, from, to) == x
}

/// What a lookup result says, against what the model says.
pub open spec fn path_result_is(
    r: Result<FloppyPath, FloppyError>,
    m: Result<PathView, FloppyError>,
) -> bool {
    match r {
        Ok(q) => m == Ok::<PathView, FloppyError>(q@),
        Err(e) => m == Err::<PathView, FloppyError>(e),
    }
}

impl MemFloppyDisk {
    /// The outermost ancestor of `p` that is not there as a directory, if
    /// there is one.
    pub fn ancestor_missing(&self, p: &FloppyPath) -> (r: Option<FloppyPath>)
        requires
            self.wf(),
        ensures
            match r {
                Some(a) => self@.ancestor_missing(p@) == Some(a@),
                None => self@.ancestor_missing(p@) is None,
            },
    {
        let mut n: usize = if p.is_absolute() {
            0
        } else {
            1
        };
        while n < p.depth()
            invariant
                self.wf(),
                self@.ancestor_missing(p@) == self@.missing_from(p@, n as int),
            decreases p@.names.len() - n,
        {
            let a = p.prefix(n);
            if !self.is_dir(&a) {
                return Some(a);
            }
            n += 1;
        }
        None
    }

    /// Whether the entry at `p` is there, and is a directory.
    pub(crate) fn is_dir(&self, p: &FloppyPath) -> (r: bool)
        requires
            self.wf(),
        ensures
            r == self@.is_dir_at(p@),
    {
        match self.lookup(p) {
            None => false,
            Some(id) => match self.nodes.inode(id).kind() {
                InodeType::Dir => true,
                _ => false,
            },
        }
    }

    /// Whether an entry can stand at `p`.
    pub(crate) fn is_placeable(&self, p: &FloppyPath) -> (r: bool)
        requires
            self.wf(),
        ensures
            r == self@.placeable(p@),
    {
        (p.is_absolute() || p.depth() > 0) && self.ancestor_missing(p).is_none()
    }

    /// The guard of operations on an existing entry.
    pub fn require_present(&self, p: &FloppyPath) -> (r: Result<(), FloppyError>)
        requires
            self.wf(),
        ensures
            r == self@.require_present(p@),
    {
        if self.ancestor_missing(p).is_some() || !self.table.contains(p) {
            Err(FloppyError::NotFound)
        } else {
            Ok(())
        }
    }

    /// The guard of operations that create an entry.
    pub fn require_absent(&self, p: &FloppyPath) -> (r: Result<(), FloppyError>)
        requires
            self.wf(),
        ensures
            r == self@.require_absent(p@),
    {
        if !self.is_placeable(p) {
            Err(FloppyError::NotFound)
        } else if self.table.contains(p) {
            Err(FloppyError::AlreadyExists)
        } else {
            Ok(())
        }
    }

    /// The guard of operations that put an entry in place of what may be
    /// there.
    pub fn require_parent(&self, p: &FloppyPath) -> (r: Result<(), FloppyError>)
        requires
            self.wf(),
        ensures
            r == self@.require_parent(p@),
    {
        if !self.is_placeable(p) {
            Err(FloppyError::NotFound)
        } else {
            Ok(())
        }
    }

    /// Follows symlinks from `start` to the first entry that is not one.
    pub fn resolve_symlinks(&self, start: FloppyPath) -> (r: Result<FloppyPath, FloppyError>)
        requires
            self.wf(),
        ensures
            path_result_is(r, self@.resolve(start@)),
            r is Ok ==> self@.has(r->Ok_0@) && self@.inode_at(r->Ok_0@).kind != InodeType::Symlink,
    {
        let mut cur = start;
        let mut fuel: usize = MAX_SYMLINK_HOPS;
        loop
            invariant
                self.wf(),
                self@.resolve(start@) == self@.follow(cur@, fuel as nat),
            decreases fuel,
        {
            let id = match self.table.get(&cur) {
                None => {
                    return Err(FloppyError::NotFound);
                },
                Some(id) => id,
            };
            let inode = self.nodes.inode(id);
            match inode.kind() {
                InodeType::Symlink => {},
                _ => {
                    return Ok(cur);
                },
            }
            match inode.symlink_target() {
                None => {
                    return Err(FloppyError::Other);
                },
                Some(target) => {
                    if fuel == 0 {
                        return Err(FloppyError::TooManyLinks);
                    }
                    cur = normalize(target.as_str());
                    fuel = fuel - 1;
                },
            }
        }
    }

    fn create_at(&mut self, p: FloppyPath) -> (r: Result<(), FloppyError>)
        requires
            old(self).wf(),
            p@.clean(),
        ensures
            final(self).wf(),
            r == old(self)@.create_result(p@),
            r is Err ==> final(self)@ == old(self)@,
            r is Ok ==> old(self)@.created(
                final(self)@,
                p@,
                InodeType::Dir,
                0o755,
                Seq::empty(),
                None,
            ),
    {
        match self.require_absent(&p) {
            Err(e) => {
                return Err(e);
            },
            Ok(_) => {},
        }
        if self.is_exhausted() {
            return Err(FloppyError::Other);
        }
        let text = p.render();
        let inode = Inode::new_dir(self.next_serial, text.as_str());
        self.link_new(p, inode);
        Ok(())
    }

    /// Creates the directory `path`. Every directory above it must exist,
    /// and `path` itself must not.
    pub fn create_dir(&mut self, path: &str) -> (r: Result<(), FloppyError>)
        requires
            old(self).wf(),
        ensures
            final(self).wf(),
            r == old(self)@.create_result(normalized(path@)),
            r is Err ==> final(self)@ == old(self)@,
            r is Ok ==> old(self)@.created(
                final(self)@,
                normalized(path@),
                InodeType::Dir,
                0o755,
                Seq::empty(),
                None,
            ),
    {
        self.create_at(normalize(path))
    }

    /// Puts a new file with the given contents at `path`, in place of the
    /// file or symlink that was there. Every directory above it must
    /// exist, and `path` must not be a directory.
    pub fn write(&mut self, path: &str, contents: &[u8]) -> (r: Result<(), FloppyError>)
        requires
            old(self).wf(),
        ensures
            final(self).wf(),
            r == old(self)@.write_result(normalized(path@)),
            r is Err ==> final(self)@ == old(self)@,
            r is Ok ==> old(self)@.created(
                final(self)@,
                normalized(path@),
                InodeType::File,
                0o644,
                contents@,
                None,
            ),
    {
        let p = normalize(path);
        match self.require_parent(&p) {
            Err(e) => {
                return Err(e);
            },
            Ok(_) => {},
        }
        if self.is_dir(&p) {
            return Err(FloppyError::InvalidInput);
        }
        if self.is_exhausted() {
            return Err(FloppyError::Other);
        }
        let text = p.render();
        let inode = Inode::new_file(
            self.next_serial,
            text.as_str(),
            vstd::slice::slice_to_vec(contents),
        );
        self.link_new(p, inode);
        Ok(())
    }

    /// The file that `p` leads to.
    fn file_at(&self, p: FloppyPath) -> (r: Result<FloppyPath, FloppyError>)
        requires
            self.wf(),
        ensures
            path_result_is(r, self@.file_at(p@)),
            r is Ok ==> self@.has(r->Ok_0@) && self@.live(self@.table[r->Ok_0@]),
    {
        match self.require_present(&p) {
            Err(e) => {
                return Err(e);
            },
            Ok(_) => {},
        }
        let q = match self.resolve_symlinks(p) {
            Err(e) => {
                return Err(e);
            },
            Ok(q) => q,
        };
        match self.table.get(&q) {
            None => Err(FloppyError::NotFound),
            Some(id) => match self.nodes.inode(id).kind() {
                InodeType::File => Ok(q),
                _ => Err(FloppyError::InvalidInput),
            },
        }
    }

    /// Returns a copy of the whole contents of the file at `path`.
    pub fn read(&self, path: &str) -> (r: Result<Vec<u8>, FloppyError>)
        requires
            self.wf(),
        ensures
            match r {
                Ok(v) => self@.read_result(normalized(path@)) == Ok::<Seq<u8>, FloppyError>(v@),
                Err(e) => self@.read_result(normalized(path@)) == Err::<Seq<u8>, FloppyError>(e),
            },
    {
        let q = match self.file_at(normalize(path)) {
            Err(e) => {
                return Err(e);
            },
            Ok(q) => q,
        };
        match self.table.get(&q) {
            None => Err(FloppyError::NotFound),
            Some(id) => Ok(vstd::slice::slice_to_vec(self.nodes.inode(id).buffer_view())),
        }
    }

    /// Returns the contents of the file at `path` as text.
    pub fn read_to_string(&self, path: &str) -> (r: Result<String, FloppyError>)
        requires
            self.wf(),
        ensures
            match r {
                Ok(s) => self@.read_to_string_result(normalized(path@)) == Ok::<
                    Seq<char>,
                    FloppyError,
                >(s@),
                Err(e) => self@.read_to_string_result(normalized(path@)) == Err::<
                    Seq<char>,
                    FloppyError,
                >(e),
            },
    {
        match self.read(path) {
            Err(e) => Err(e),
            Ok(bytes) => match string_from_utf8(bytes) {
                Some(s) => Ok(s),
                None => Err(FloppyError::InvalidData),
            },
        }
    }
}

impl MemFloppyDisk {
    /// The entry at `p`, which the table has.
    fn inode_at(&self, p: &FloppyPath) -> (r: &Inode)
        requires
            self.wf(),
            self@.has(p@),
        ensures
            r@ == self@.inode_at(p@),
    {
        match self.table.get(p) {
            Some(id) => self.nodes.inode(id),
            None => vstd::pervasive::unreached(),
        }
    }

    /// Returns the target of the symlink at `path` as it was given when the
    /// symlink was made.
    pub fn read_link(&self, path: &str) -> (r: Result<String, FloppyError>)
        requires
            self.wf(),
        ensures
            match r {
                Ok(s) => self@.read_link_result(normalized(path@)) == Ok::<Seq<char>, FloppyError>(
                    s@,
                ),
                Err(e) => self@.read_link_result(normalized(path@)) == Err::<
                    Seq<char>,
                    FloppyError,
                >(e),
            },
    {
        let p = normalize(path);
        match self.require_present(&p) {
            Err(e) => {
                return Err(e);
            },
            Ok(_) => {},
        }
        let inode = self.inode_at(&p);
        match inode.kind() {
            InodeType::Symlink => {},
            _ => {
                return Err(FloppyError::InvalidInput);
            },
        }
        match inode.symlink_target() {
            None => Err(FloppyError::Other),
            Some(t) => Ok(t.clone()),
        }
    }

    /// Returns the attributes of the entry that `path` leads to, symlinks
    /// followed.
    pub fn metadata(&self, path: &str) -> (r: Result<MemMetadata, FloppyError>)
        requires
            self.wf(),
        ensures
            match r {
                Ok(m) => self@.metadata_result(normalized(path@)) is Ok && m == metadata_of(
                    self@.inode_at(self@.metadata_result(normalized(path@))->Ok_0),
                ),
                Err(e) => self@.metadata_result(normalized(path@)) == Err::<PathView, FloppyError>(
                    e,
                ),
            },
    {
        let p = normalize(path);
        match self.require_present(&p) {
            Err(e) => {
                return Err(e);
            },
            Ok(_) => {},
        }
        match self.resolve_symlinks(p) {
            Err(FloppyError::NotFound) => Err(FloppyError::Other),
            Err(e) => Err(e),
            Ok(q) => Ok(MemMetadata::of(self.inode_at(&q))),
        }
    }

    /// Returns the attributes of the entry at `path` itself, be it a
    /// symlink or not.
    pub fn symlink_metadata(&self, path: &str) -> (r: Result<MemMetadata, FloppyError>)
        requires
            self.wf(),
        ensures
            match r {
                Ok(m) => self@.require_present(normalized(path@)) is Ok && m == metadata_of(
                    self@.inode_at(normalized(path@)),
                ),
                Err(e) => self@.require_present(normalized(path@)) == Err::<(), FloppyError>(e),
            },
    {
        let p = normalize(path);
        match self.require_present(&p) {
            Err(e) => Err(e),
            Ok(_) => Ok(MemMetadata::of(self.inode_at(&p))),
        }
    }

    /// Whether `path` leads to an entry, symlinks followed.
    pub fn try_exists(&self, path: &str) -> (r: Result<bool, FloppyError>)
        requires
            self.wf(),
        ensures
            r == self@.try_exists_result(normalized(path@)),
    {
        match self.resolve_symlinks(normalize(path)) {
            Ok(_) => Ok(true),
            Err(FloppyError::NotFound) => Ok(false),
            Err(e) => Err(e),
        }
    }

    /// Returns the canonical form of `path`: normalised, and with the
    /// symlinks it leads through followed.
    pub fn canonicalize(&self, path: &str) -> (r: Result<String, FloppyError>)
        requires
            self.wf(),
        ensures
            match r {
                Ok(s) => self@.canonicalize_result(normalized(path@)) is Ok && s@ == rendered(
                    self@.canonicalize_result(normalized(path@))->Ok_0,
                ),
                Err(e) => self@.canonicalize_result(normalized(path@)) == Err::<
                    PathView,
                    FloppyError,
                >(e),
            },
    {
        let p = normalize(path);
        if !self.table.contains(&p) {
            return Ok(p.render());
        }
        match self.resolve_symlinks(p) {
            Err(e) => Err(e),
            Ok(q) => Ok(q.render()),
        }
    }

    /// Hard links are not supported: always `Unsupported`.
    pub fn hard_link(&self, src: &str, dst: &str) -> (r: Result<(), FloppyError>)
        ensures
            r == Err::<(), FloppyError>(FloppyError::Unsupported),
    {
        Err(FloppyError::Unsupported)
    }
}

impl MemFloppyDisk {
    /// Takes the entry at `p`, which has nothing below it, out of the
    /// table.
    fn unlink_at(&mut self, p: &FloppyPath)
        requires
            old(self).wf(),
            old(self)@.has(p@),
            old(self)@.nothing_below(p@),
        ensures
            final(self).wf(),
            final(self)@ == old(self)@.unlinked(p@),
    {
        proof {
            self@.lemma_unlinked(p@);
            self@.lemma_unlinked_closed(p@);
        }
        match self.table.remove(p) {
            Some(id) => {
                if self.nodes.handles(id) == 0 {
                    self.nodes.free(id);
                }
            },
            None => {},
        }
    }

    /// Whether some entry lies directly inside `p`.
    fn has_children(&self, p: &FloppyPath) -> (r: bool)
        requires
            self.wf(),
        ensures
            r == self@.has_children(p@),
    {
        proof {
            self.table.lemma_entries();
        }
        let mut i: usize = 0;
        while i < self.table.len()
            invariant
                self.wf(),
                i <= self.table.entries().len(),
                forall|j: int|
                    0 <= j < i ==> !(#[trigger] self.table.entries()[j]).0.is_child_of(p@),
                forall|j: int|
                    0 <= j < self.table.entries().len() ==> self@.table.dom().contains(
                        #[trigger] self.table.entries()[j].0,
                    ),
                forall|q: PathView| #[trigger]
                    self@.table.dom().contains(q) ==> crate::table::has_key(
                        self.table.entries(),
                        q,
                    ),
            decreases self.table.entries().len() - i,
        {
            if self.table.path_at(i).is_child_of(p) {
                return true;
            }
            i += 1;
        }
        false
    }

    /// Removes the entry at `path`, which nothing may lie directly inside.
    pub fn remove_dir(&mut self, path: &str) -> (r: Result<(), FloppyError>)
        requires
            old(self).wf(),
        ensures
            final(self).wf(),
            r == old(self)@.remove_dir_result(normalized(path@)),
            r is Err ==> final(self)@ == old(self)@,
            r is Ok ==> final(self)@ == old(self)@.unlinked(normalized(path@)),
    {
        let p = normalize(path);
        match self.require_present(&p) {
            Err(e) => {
                return Err(e);
            },
            Ok(_) => {},
        }
        if self.has_children(&p) {
            return Err(FloppyError::InvalidInput);
        }
        proof {
            self@.lemma_no_children_nothing_below(p@);
        }
        self.unlink_at(&p);
        Ok(())
    }

    /// Removes the entry at `path`, which must not be a directory.
    pub fn remove_file(&mut self, path: &str) -> (r: Result<(), FloppyError>)
        requires
            old(self).wf(),
        ensures
            final(self).wf(),
            r == old(self)@.remove_file_result(normalized(path@)),
            r is Err ==> final(self)@ == old(self)@,
            r is Ok ==> final(self)@ == old(self)@.unlinked(normalized(path@)),
    {
        let p = normalize(path);
        match self.require_present(&p) {
            Err(e) => {
                return Err(e);
            },
            Ok(_) => {},
        }
        match self.inode_at(&p).kind() {
            InodeType::Dir => {
                return Err(FloppyError::InvalidInput);
            },
            _ => {},
        }
        proof {
            self@.lemma_leaf_nothing_below(p@);
        }
        self.unlink_at(&p);
        Ok(())
    }

    /// Moves the entry at `from`, with every entry below it, to `to`. The
    /// entry of `from` gets the next serial number; open files stay on the
    /// entries they were opened on. `to` must not lie below `from`.
    pub fn rename(&mut self, from: &str, to: &str) -> (r: Result<(), FloppyError>)
        requires
            old(self).wf(),
        ensures
            final(self).wf(),
            r == old(self)@.rename_result(normalized(from@), normalized(to@)),
            r is Err ==> final(self)@ == old(self)@,
            r is Ok ==> final(self)@ == old(self)@.renamed(normalized(from@), normalized(to@)),
    {
        let src = normalize(from);
        let dst = normalize(to);
        match self.require_present(&src) {
            Err(e) => {
                return Err(e);
            },
            Ok(_) => {},
        }
        match self.require_absent(&dst) {
            Err(e) => {
                return Err(e);
            },
            Ok(_) => {},
        }
        if dst.starts_with(&src) {
            return Err(FloppyError::InvalidInput);
        }
        if self.is_exhausted() {
            return Err(FloppyError::Other);
        }
        let id = match self.table.get(&src) {
            Some(id) => id,
            None => {
                return Err(FloppyError::NotFound);
            },
        };
        let ghost start = self@;
        let ghost e = self.table.entries();
        proof {
            start.lemma_renamed(src@, dst@);
            start.lemma_renamed_keys(src@, dst@);
            self.table.lemma_entries();
            self.table.lemma_keys_distinct();
        }
        let depth = src.depth();
        let mut fresh = PathTable::new();
        let mut i: usize = 0;
        while i < self.table.len()
            invariant
                self.wf(),
                self@ == start,
                e == self.table.entries(),
                fresh.wf(),
                i <= e.len(),
                depth == src@.names.len(),
                forall|j: int|
                    0 <= j < e.len() ==> start.table.dom().contains(#[trigger] e[j].0)
                        && start.table[e[j].0] == e[j].1,
                forall|q: PathView| #[trigger]
                    start.table.dom().contains(q) ==> rekeyed(rekeyed(q, src@, dst@), dst@, src@)
                        == q,
                forall|j: int, k: int|
                    0 <= j < e.len() && 0 <= k < e.len() && j != k ==> (#[trigger] e[j]).0 != (
                    #[trigger] e[k]).0,
                forall|x: PathView| #[trigger]
                    fresh@.dom().contains(x) ==> rekeyed_among(e, i as int, src@, dst@, x),
                forall|j: int|
                    0 <= j < i ==> fresh@.dom().contains(rekeyed(#[trigger] e[j].0, src@, dst@))
                        && fresh@[rekeyed(e[j].0, src@, dst@)] == e[j].1,
            decreases e.len() - i,
        {
            let key = self.table.path_at(i);
            let moved = if key.starts_with(&src) {
                key.rebased(depth, &dst)
            } else {
                key.duplicate()
            };
            let node = self.table.node_at(i);
            let ghost before = fresh@;
            fresh.insert(moved, node);
            proof {
                assert(moved@ == rekeyed(e[i as int].0, src@, dst@));
                assert forall|x: PathView| #[trigger]
                    fresh@.dom().contains(x) implies rekeyed_among(e, i + 1, src@, dst@, x) by {
                    if x == moved@ {
                        assert(rekeyed(e[i as int].0, src@, dst@) == x);
                    } else {
                        assert(before.dom().contains(x));
                        let j = choose|j: int|
                            0 <= j < i && rekeyed(#[trigger] e[j].0, src@, dst@) == x;
                        assert(0 <= j < i + 1 && rekeyed(e[j].0, src@, dst@) == x);
                    }
                }
                assert forall|j: int| 0 <= j < i + 1 implies fresh@.dom().contains(
                    rekeyed(#[trigger] e[j].0, src@, dst@),
                ) && fresh@[rekeyed(e[j].0, src@, dst@)] == e[j].1 by {
                    if j < i {
                        assert(start.table.dom().contains(e[j].0));
                        assert(start.table.dom().contains(e[i as int].0));
                        assert(e[j].0 != e[i as int].0);
                        assert(rekeyed(e[j].0, src@, dst@) != moved@);
                        assert(before.dom().contains(rekeyed(e[j].0, src@, dst@)));
                    }
                }
            }
            i += 1;
        }
        proof {
            let want = start.renamed(src@, dst@).table;
            assert forall|x: PathView| fresh@.dom().contains(x) == want.dom().contains(x) by {
                if fresh@.dom().contains(x) {
                    let j = choose|j: int|
                        0 <= j < e.len() && rekeyed(#[trigger] e[j].0, src@, dst@) == x;
                    assert(start.table.dom().contains(e[j].0));
                }
                if want.dom().contains(x) {
                    let q = rekeyed(x, dst@, src@);
                    assert(start.table.dom().contains(q));
                    assert(has_key(e, q));
                    let j = choose|j: int| 0 <= j < e.len() && #[trigger] e[j].0 == q;
                    assert(fresh@.dom().contains(rekeyed(e[j].0, src@, dst@)));
                }
            }
            assert forall|x: PathView| #[trigger] fresh@.dom().contains(x) implies fresh@[x]
                == want[x] by {
                let j = choose|j: int|
                    0 <= j < e.len() && rekeyed(#[trigger] e[j].0, src@, dst@) == x;
                assert(start.table.dom().contains(e[j].0));
                assert(fresh@[rekeyed(e[j].0, src@, dst@)] == e[j].1);
            }
            assert(fresh@ =~= want);
        }
        let text = dst.render();
        let serial = self.next_serial;
        self.table = fresh;
        let inode = self.nodes.inode_mut(id);
        inode.set_serial(serial);
        inode.set_path(text.as_str());
        self.next_serial = serial + 1;
        assert(self@.nodes =~= start.renamed(src@, dst@).nodes);
        Ok(())
    }

    /// Makes a symlink at `dst` that leads to `src`. The target is kept as
    /// given, so moving `src` later breaks the link.
    pub fn symlink(&mut self, src: &str, dst: &str) -> (r: Result<(), FloppyError>)
        requires
            old(self).wf(),
        ensures
            final(self).wf(),
            r == old(self)@.symlink_result(normalized(src@), normalized(dst@)),
            r is Err ==> final(self)@ == old(self)@,
            r is Ok ==> old(self)@.created(
                final(self)@,
                normalized(dst@),
                InodeType::Symlink,
                0o777,
                Seq::empty(),
                Some(src@),
            ),
    {
        let target = normalize(src);
        let p = normalize(dst);
        match self.require_present(&target) {
            Err(e) => {
                return Err(e);
            },
            Ok(_) => {},
        }
        match self.require_absent(&p) {
            Err(e) => {
                return Err(e);
            },
            Ok(_) => {},
        }
        if self.is_exhausted() {
            return Err(FloppyError::Other);
        }
        let text = p.render();
        let inode = Inode::new_symlink(self.next_serial, text.as_str(), src);
        self.link_new(p, inode);
        Ok(())
    }

    /// Copies the file that `from` leads to into a new file at `to`, in
    /// place of the file or symlink that was there, with the same contents
    /// and mode. Returns the number of bytes copied.
    pub fn copy(&mut self, from: &str, to: &str) -> (r: Result<u64, FloppyError>)
        requires
            old(self).wf(),
        ensures
            final(self).wf(),
            match r {
                Ok(n) => {
                    let m = old(self)@.copy_result(normalized(from@), normalized(to@));
                    &&& m is Ok
                    &&& n == old(self)@.inode_at(m->Ok_0).buffer.len()
                    &&& old(self)@.created(
                        final(self)@,
                        normalized(to@),
                        InodeType::File,
                        old(self)@.inode_at(m->Ok_0).mode,
                        old(self)@.inode_at(m->Ok_0).buffer,
                        None,
                    )
                },
                Err(e) => old(self)@.copy_result(normalized(from@), normalized(to@)) == Err::<
                    PathView,
                    FloppyError,
                >(e) && final(self)@ == old(self)@,
            },
    {
        let q = match self.file_at(normalize(from)) {
            Err(e) => {
                return Err(e);
            },
            Ok(q) => q,
        };
        let p = normalize(to);
        match self.require_parent(&p) {
            Err(e) => {
                return Err(e);
            },
            Ok(_) => {},
        }
        if self.is_dir(&p) {
            return Err(FloppyError::InvalidInput);
        }
        if self.is_exhausted() {
            return Err(FloppyError::Other);
        }
        let source = self.inode_at(&q);
        let data = vstd::slice::slice_to_vec(source.buffer_view());
        let mode = source.permissions();
        let n = source.len();
        let text = p.render();
        let mut inode = Inode::new_file(self.next_serial, text.as_str(), data);
        inode.set_permissions(mode);
        self.link_new(p, inode);
        Ok(n)
    }

    /// Sets the mode of the entry that `path` leads to, symlinks followed.
    pub fn set_permissions(&mut self, path: &str, perm: MemPermissions) -> (r: Result<
        (),
        FloppyError,
    >)
        requires
            old(self).wf(),
        ensures
            final(self).wf(),
            match r {
                Ok(_) => {
                    let m = old(self)@.target_result(normalized(path@));
                    &&& m is Ok
                    &&& final(self)@ == old(self)@.with_inode(
                        old(self)@.table[m->Ok_0],
                        InodeView { mode: perm.mode, ..old(self)@.inode_at(m->Ok_0) },
                    )
                },
                Err(e) => old(self)@.target_result(normalized(path@)) == Err::<
                    PathView,
                    FloppyError,
                >(e) && final(self)@ == old(self)@,
            },
    {
        let p = normalize(path);
        match self.require_present(&p) {
            Err(e) => {
                return Err(e);
            },
            Ok(_) => {},
        }
        let q = match self.resolve_symlinks(p) {
            Err(e) => {
                return Err(e);
            },
            Ok(q) => q,
        };
        match self.table.get(&q) {
            Some(id) => {
                self.nodes.inode_mut(id).set_permissions(perm);
            },
            None => {},
        }
        Ok(())
    }

    /// Sets the owner of the entry that `path` leads to, symlinks followed.
    pub fn chown(&mut self, path: &str, uid: u32, gid: u32) -> (r: Result<(), FloppyError>)
        requires
            old(self).wf(),
        ensures
            final(self).wf(),
            match r {
                Ok(_) => {
                    let m = old(self)@.target_result(normalized(path@));
                    &&& m is Ok
                    &&& final(self)@ == old(self)@.with_inode(
                        old(self)@.table[m->Ok_0],
                        InodeView { uid, gid, ..old(self)@.inode_at(m->Ok_0) },
                    )
                },
                Err(e) => old(self)@.target_result(normalized(path@)) == Err::<
                    PathView,
                    FloppyError,
                >(e) && final(self)@ == old(self)@,
            },
    {
        let p = normalize(path);
        match self.require_present(&p) {
            Err(e) => {
                return Err(e);
            },
            Ok(_) => {},
        }
        let q = match self.resolve_symlinks(p) {
            Err(e) => {
                return Err(e);
            },
            Ok(q) => q,
        };
        match self.table.get(&q) {
            Some(id) => {
                self.nodes.inode_mut(id).set_ownership(uid, gid);
            },
            None => {},
        }
        Ok(())
    }
}

/// One entry of a directory listing.
#[derive(Debug)]
pub struct MemDirEntry {
    path: FloppyPath,
}

impl View for MemDirEntry {
    type V = PathView;

    closed spec fn view(&self) -> PathView {
        self.path@
    }
}

/// The name of a listed entry: the last name of its path.
pub open spec fn entry_name(p: PathView) -> Seq<char> {
    if p.names.len() > 0 {
        p.names.last()
    } else {
        Seq::empty()
    }
}

impl MemDirEntry {
    /// The path of the entry.
    pub fn path(&self) -> (r: String)
        ensures
            r@ == rendered(self@),
    {
        self.path.render()
    }

    /// The name of the entry inside its directory.
    pub fn file_name(&self) -> (r: String)
        ensures
            r@ == entry_name(self@),
    {
        match self.path.file_name() {
            Some(n) => n,
            None => String::new(),
        }
    }

    /// The attributes of the entry as it is in `disk` now. Symlinks are
    /// not followed.
    pub fn metadata(&self, disk: &MemFloppyDisk) -> (r: Result<MemMetadata, FloppyError>)
        requires
            disk.wf(),
        ensures
            match r {
                Ok(m) => disk@.require_present(self@) is Ok && m == metadata_of(
                    disk@.inode_at(self@),
                ),
                Err(e) => disk@.require_present(self@) == Err::<(), FloppyError>(e),
            },
    {
        match disk.require_present(&self.path) {
            Err(e) => Err(e),
            Ok(_) => Ok(MemMetadata::of(disk.inode_at(&self.path))),
        }
    }

    /// The kind of the entry as it is in `disk` now. Symlinks are not
    /// followed.
    pub fn file_type(&self, disk: &MemFloppyDisk) -> (r: Result<MemFileType, FloppyError>)
        requires
            disk.wf(),
        ensures
            match r {
                Ok(t) => disk@.require_present(self@) is Ok && t.0 == disk@.inode_at(self@).kind,
                Err(e) => disk@.require_present(self@) == Err::<(), FloppyError>(e),
            },
    {
        match self.metadata(disk) {
            Err(e) => Err(e),
            Ok(m) => Ok(m.file_type),
        }
    }
}

/// A directory listing: the entries that are still to come, each handed out
/// once.
#[derive(Debug)]
pub struct MemReadDir {
    stack: Vec<MemDirEntry>,
}

impl View for MemReadDir {
    type V = Seq<PathView>;

    closed spec fn view(&self) -> Seq<PathView> {
        self.stack@.map_values(|e: MemDirEntry| e@).reverse()
    }
}

impl MemReadDir {
    /// Hands out the next entry of the listing, or `None` when there is
    /// none left.
    pub fn next_entry(&mut self) -> (r: Result<Option<MemDirEntry>, FloppyError>)
        ensures
            match r {
                Ok(Some(e)) => {
                    &&& old(self)@.len() > 0
                    &&& e@ == old(self)@[0]
                    &&& final(self)@ == old(self)@.drop_first()
                },
                Ok(None) => old(self)@.len() == 0 && final(self)@ == old(self)@,
                Err(_) => false,
            },
    {
        let r = self.stack.pop();
        Ok(r)
    }
}

impl MemFloppyDisk {
    /// Takes the entry at position `i` of the table out of it.
    fn unlink_index(&mut self, i: usize)
        requires
            old(self).fits(),
            i < old(self).table.entries().len(),
        ensures
            final(self).fits(),
            final(self)@ == old(self)@.unlinked(old(self).table.entries()[i as int].0),
            final(self).table.entries() == old(self).table.entries().remove(i as int),
    {
        proof {
            self.table.lemma_entries();
            self@.lemma_unlinked(self.table.entries()[i as int].0);
        }
        let id = self.table.remove_at(i);
        if self.nodes.handles(id) == 0 {
            self.nodes.free(id);
        }
    }

    /// Removes the entry at `path` and every entry below it.
    pub fn remove_dir_all(&mut self, path: &str) -> (r: Result<(), FloppyError>)
        requires
            old(self).wf(),
        ensures
            final(self).wf(),
            r == old(self)@.require_present(normalized(path@)),
            r is Err ==> final(self)@ == old(self)@,
            r is Ok ==> final(self)@ == old(self)@.unlinked_under(normalized(path@)),
    {
        let p = normalize(path);
        match self.require_present(&p) {
            Err(e) => {
                return Err(e);
            },
            Ok(_) => {},
        }
        let ghost e = self.table.entries();
        let ghost start = self@;
        let mut i: usize = self.table.len();
        proof {
            self.table.lemma_entries();
            let k0 = |q: PathView|
                !(q.starts_with(p@) && exists|j: int| i <= j < e.len() && #[trigger] e[j].0 == q);
            start.lemma_retaining_ext(k0, |q: PathView| true);
            assert(start.retaining(|q: PathView| true).table =~= start.table);
            assert(start.retaining(|q: PathView| true).nodes =~= start.nodes);
        }
        while i > 0
            invariant
                self.fits(),
                start.wf(),
                i <= e.len(),
                i <= self.table.entries().len(),
                forall|j: int| 0 <= j < i ==> self.table.entries()[j] == e[j],
                self@ == start.retaining(
                    |q: PathView|
                        !(q.starts_with(p@) && exists|j: int|
                            i <= j < e.len() && #[trigger] e[j].0 == q),
                ),
            decreases i,
        {
            let ghost before = |q: PathView|
                !(q.starts_with(p@) && exists|j: int| i <= j < e.len() && #[trigger] e[j].0 == q);
            i -= 1;
            let ghost after = |q: PathView|
                !(q.starts_with(p@) && exists|j: int| i <= j < e.len() && #[trigger] e[j].0 == q);
            let ghost q0 = e[i as int].0;
            if self.table.path_at(i).starts_with(&p) {
                self.unlink_index(i);
                proof {
                    let gone = |q: PathView| q != q0;
                    start.lemma_retaining_twice(before, gone);
                    let both = |q: PathView| before(q) && gone(q);
                    start.lemma_retaining_ext(both, after);
                    start.retaining(before).lemma_unlinked_as(q0, gone);
                }
            } else {
                proof {
                    start.lemma_retaining_ext(before, after);
                }
            }
        }
        proof {
            let all = |q: PathView|
                !(q.starts_with(p@) && exists|j: int| 0 <= j < e.len() && #[trigger] e[j].0 == q);
            let under = |q: PathView| !q.starts_with(p@);
            start.lemma_retaining_ext(all, under);
            start.lemma_unlinked_under_closed(p@);
        }
        Ok(())
    }

    /// Lists the entries that lie directly inside `path`, in the order of
    /// their paths.
    pub fn read_dir(&self, path: &str) -> (r: Result<MemReadDir, FloppyError>)
        requires
            self.wf(),
        ensures
            match r {
                Ok(d) => {
                    &&& self@.require_present(normalized(path@)) is Ok
                    &&& strictly_sorted(d@)
                    &&& forall|q: PathView|
                        d@.contains(q) <==> self@.has(q) && q.is_child_of(normalized(path@))
                },
                Err(e) => self@.require_present(normalized(path@)) == Err::<(), FloppyError>(e),
            },
    {
        let p = normalize(path);
        match self.require_present(&p) {
            Err(e) => {
                return Err(e);
            },
            Ok(_) => {},
        }
        let ghost e = self.table.entries();
        let mut stack: Vec<MemDirEntry> = Vec::new();
        let ghost mut at: Seq<int> = Seq::empty();
        let mut i: usize = self.table.len();
        proof {
            self.table.lemma_wf();
        }
        while i > 0
            invariant
                self.wf(),
                e == self.table.entries(),
                i <= e.len(),
                at.len() == stack.len(),
                forall|k: int|
                    0 <= k < at.len() ==> i <= #[trigger] at[k] < e.len() && stack[k]@ == e[at[k]].0
                        && e[at[k]].0.is_child_of(p@),
                forall|k: int, l: int| 0 <= k < l < at.len() ==> at[k] > at[l],
                forall|j: int|
                    i <= j < e.len() && (#[trigger] e[j]).0.is_child_of(p@) ==> exists|k: int|
                        0 <= k < at.len() && #[trigger] at[k] == j,
            decreases i,
        {
            i -= 1;
            let q = self.table.path_at(i);
            if q.is_child_of(&p) {
                let ghost before = at;
                stack.push(MemDirEntry { path: q.duplicate() });
                proof {
                    at = at.push(i as int);
                    assert forall|j: int|
                        i <= j < e.len() && (#[trigger] e[j]).0.is_child_of(p@) implies exists|
                        k: int,
                    |
                        0 <= k < at.len() && #[trigger] at[k] == j by {
                        if j == i {
                            assert(at[at.len() - 1] == j);
                        } else {
                            let k = choose|k: int|
                                0 <= k < before.len() && #[trigger] before[k] == j;
                            assert(at[k] == j);
                        }
                    }
                }
            }
        }
        let d = MemReadDir { stack };
        proof {
            let n = at.len() as int;
            assert forall|a: int, b: int| 0 <= a < b < d@.len() implies crate::path::path_lt(
                #[trigger] d@[a],
                #[trigger] d@[b],
            ) by {
                assert(at[n - 1 - b] > at[n - 1 - a]);
            }
            assert forall|q: PathView|
                d@.contains(q) <==> self@.has(q) && q.is_child_of(p@) by {
                if d@.contains(q) {
                    let a = choose|a: int| 0 <= a < d@.len() && d@[a] == q;
                    assert(e[at[n - 1 - a]].0 == q);
                }
                if self@.has(q) && q.is_child_of(p@) {
                    let j = choose|j: int| 0 <= j < e.len() && #[trigger] e[j].0 == q;
                    let k = choose|k: int| 0 <= k < at.len() && #[trigger] at[k] == j;
                    assert(d@[n - 1 - k] == stack[k]@);
                }
            }
        }
        Ok(d)
    }
}

/// Writes `data` into `buffer` at offset `at`, extending it with zeros
/// first where it is too short.
pub fn write_at(buffer: &mut Vec<u8>, at: usize, data: &[u8])
    requires
        at + data@.len() <= usize::MAX,
    ensures
        final(buffer)@ == written(old(buffer)@, at as int, data@),
{
    let end = at + data.len();
    let ghost start = buffer@;
    while buffer.len() < end
        invariant
            start.len() <= buffer.len(),
            buffer.len() <= end || buffer.len() == start.len(),
            buffer@ == start + Seq::new((buffer.len() - start.len()) as nat, |i: int| 0u8),
        decreases end - buffer.len(),
    {
        buffer.push(0);
    }
    let ghost grown = buffer@;
    let mut i: usize = 0;
    while i < data.len()
        invariant
            i <= data.len(),
            end == at + data.len(),
            grown.len() >= end,
            buffer@ == grown.subrange(0, at as int) + data@.take(i as int) + grown.subrange(
                at + i,
                grown.len() as int,
            ),
        decreases data.len() - i,
    {
        buffer[at + i] = data[i];
        i += 1;
    }
}

impl MemFloppyDisk {
    /// The id of the entry at `p`, if the table has one.
    pub(crate) fn lookup(&self, p: &FloppyPath) -> (r: Option<usize>)
        requires
            self.wf(),
        ensures
            match r {
                Some(id) => self@.has(p@) && id == self@.table[p@] && self@.live(id),
                None => !self@.has(p@),
            },
    {
        let r = self.table.get(p);
        assert(self@.table.dom().contains(p@) ==> self@.nodes.dom().contains(self@.table[p@]));
        r
    }

    /// Whether an open file can point at the entry under `id`.
    pub(crate) fn node_is_open(&self, id: usize) -> (r: bool)
        requires
            self.wf(),
        ensures
            r == self@.is_open(id),
    {
        self.nodes.has(id) && self.nodes.handles(id) > 0
    }

    /// The entry under `id`.
    pub(crate) fn node_inode(&self, id: usize) -> (r: &Inode)
        requires
            self.wf(),
            self@.live(id),
        ensures
            r@ == self@.nodes[id].inode,
    {
        self.nodes.inode(id)
    }

    /// How many open files point at the entry under `id`.
    pub(crate) fn node_handles(&self, id: usize) -> (r: usize)
        requires
            self.wf(),
            self@.live(id),
        ensures
            r == self@.nodes[id].handles,
    {
        self.nodes.handles(id)
    }

    /// Whether some path of the table leads to the entry under `id`.
    pub(crate) fn is_linked(&self, id: usize) -> (r: bool)
        requires
            self.wf(),
        ensures
            r == self@.linked(id),
    {
        proof {
            self.table.lemma_entries();
        }
        let mut i: usize = 0;
        while i < self.table.len()
            invariant
                self.wf(),
                i <= self.table.entries().len(),
                forall|j: int| 0 <= j < i ==> (#[trigger] self.table.entries()[j]).1 != id,
                forall|j: int|
                    0 <= j < self.table.entries().len() ==> self@.table.dom().contains(
                        #[trigger] self.table.entries()[j].0,
                    ) && self@.table[self.table.entries()[j].0] == self.table.entries()[j].1,
                forall|q: PathView| #[trigger]
                    self@.table.dom().contains(q) ==> crate::table::has_key(
                        self.table.entries(),
                        q,
                    ),
            decreases self.table.entries().len() - i,
        {
            if self.table.node_at(i) == id {
                assert(self@.table.dom().contains(self.table.entries()[i as int].0));
                return true;
            }
            i += 1;
        }
        false
    }

    /// Writes `data` into the contents of the entry under `id` at offset
    /// `at`.
    pub(crate) fn node_write(&mut self, id: usize, at: usize, data: &[u8])
        requires
            old(self).wf(),
            old(self)@.live(id),
            at + data@.len() <= usize::MAX,
        ensures
            final(self).wf(),
            final(self)@ == old(self)@.with_inode(
                id,
                InodeView {
                    buffer: written(old(self)@.nodes[id].inode.buffer, at as int, data@),
                    ..old(self)@.nodes[id].inode
                },
            ),
    {
        proof {
            self@.lemma_with_inode(
                id,
                InodeView {
                    buffer: written(self@.nodes[id].inode.buffer, at as int, data@),
                    ..self@.nodes[id].inode
                },
            );
        }
        write_at(self.nodes.inode_mut(id).buffer_mut(), at, data);
    }

    /// Empties the contents of the entry under `id`.
    pub(crate) fn node_truncate(&mut self, id: usize)
        requires
            old(self).wf(),
            old(self)@.live(id),
        ensures
            final(self).wf(),
            final(self)@ == old(self)@.with_inode(
                id,
                InodeView { buffer: Seq::empty(), ..old(self)@.nodes[id].inode },
            ),
    {
        proof {
            self@.lemma_with_inode(
                id,
                InodeView { buffer: Seq::empty(), ..self@.nodes[id].inode },
            );
        }
        self.nodes.inode_mut(id).buffer_mut().clear();
    }

    /// Records the advisory size of the entry under `id`.
    pub(crate) fn node_set_len(&mut self, id: usize, size: u64)
        requires
            old(self).wf(),
            old(self)@.live(id),
        ensures
            final(self).wf(),
            final(self)@ == old(self)@.with_inode(
                id,
                InodeView { size, ..old(self)@.nodes[id].inode },
            ),
    {
        proof {
            self@.lemma_with_inode(id, InodeView { size, ..self@.nodes[id].inode });
        }
        self.nodes.inode_mut(id).set_len(size);
    }

    /// Sets the mode of the entry under `id`.
    pub(crate) fn node_set_permissions(&mut self, id: usize, perm: MemPermissions)
        requires
            old(self).wf(),
            old(self)@.live(id),
        ensures
            final(self).wf(),
            final(self)@ == old(self)@.with_inode(
                id,
                InodeView { mode: perm.mode, ..old(self)@.nodes[id].inode },
            ),
    {
        proof {
            self@.lemma_with_inode(id, InodeView { mode: perm.mode, ..self@.nodes[id].inode });
        }
        self.nodes.inode_mut(id).set_permissions(perm);
    }

    /// Counts one more open file for the entry under `id`.
    pub(crate) fn node_retain(&mut self, id: usize)
        requires
            old(self).wf(),
            old(self)@.live(id),
            old(self)@.nodes[id].handles < usize::MAX,
        ensures
            final(self).wf(),
            final(self)@ == old(self)@.with_handles(id, old(self)@.nodes[id].handles + 1),
    {
        proof {
            self@.lemma_with_handles(id, self@.nodes[id].handles + 1);
        }
        let h = self.nodes.handles(id);
        self.nodes.set_handles(id, h + 1);
    }

    /// Counts one open file of the entry under `id` out.
    pub(crate) fn node_release(&mut self, id: usize)
        requires
            old(self).wf(),
            old(self)@.is_open(id),
        ensures
            final(self).wf(),
            final(self)@ == old(self)@.closed(id),
    {
        proof {
            self@.lemma_closed(id);
        }
        let h = self.nodes.handles(id);
        if h == 1 && !self.is_linked(id) {
            self.nodes.free(id);
        } else {
            self.nodes.set_handles(id, h - 1);
        }
    }

    /// Puts a new, empty file at `p`, where the table has no entry, and
    /// counts one open file for it.
    pub(crate) fn create_open(&mut self, p: FloppyPath) -> (id: usize)
        requires
            old(self).wf(),
            p@.clean(),
            old(self)@.placeable(p@),
            !old(self)@.has(p@),
            !old(self)@.exhausted(),
        ensures
            final(self).wf(),
            id == old(self)@.next_id,
            final(self)@.inode_at(p@).is_new(
                old(self)@.next_serial,
                InodeType::File,
                0o644,
                rendered(p@),
                Seq::empty(),
                None,
            ),
            final(self)@ == old(self)@.with_new(p@, final(self)@.inode_at(p@)).with_handles(id, 1),
    {
        let text = p.render();
        let inode = Inode::new_file(self.next_serial, text.as_str(), Vec::new());
        let id = self.nodes.next();
        proof {
            self@.lemma_with_new(p@, inode@);
        }
        self.link_new(p, inode);
        proof {
            self@.lemma_with_handles(id, 1);
        }
        self.nodes.set_handles(id, 1);
        id
    }
}

impl MemFloppyDisk {
    /// Creates the directory `path` and, before it, every directory above
    /// it that is missing, outermost first. Where the serial numbers or the
    /// ids run out on the way, the directories created so far stay.
    pub fn create_dir_all(&mut self, path: &str) -> (r: Result<(), FloppyError>)
        requires
            old(self).wf(),
        ensures
            final(self).wf(),
            r == old(self)@.create_dir_all_result(normalized(path@)),
            old(self)@.grown(final(self)@, normalized(path@)),
            final(self)@.next_serial == old(self)@.next_serial + old(self)@.dirs_created(
                normalized(path@),
            ),
            final(self)@.next_id == old(self)@.next_id + old(self)@.dirs_created(
                normalized(path@),
            ),
            r is Ok ==> final(self)@.is_dir_at(normalized(path@)),
    {
        let p = normalize(path);
        let ghost start = self@;
        let ghost first = p@.first_depth();
        let ghost len = p@.names.len() as int;
        let mut n: usize = if p.is_absolute() {
            0
        } else {
            1
        };
        proof {
            assert(start.missing_count(p@, n as int) == 0);
        }
        while n < p.depth()
            invariant
                self.wf(),
                start.wf(),
                start == old(self)@,
                p@ == normalized(path@),
                p@.clean(),
                first == p@.first_depth(),
                len == p@.names.len(),
                first <= n,
                n <= len || n == first,
                self@.next_serial == start.next_serial + start.missing_count(p@, n as int),
                self@.next_id == start.next_id + start.missing_count(p@, n as int),
                start.missing_count(p@, n as int) == 0 ==> self@ == start,
                start.grown(self@, p@),
                forall|q: PathView|
                    #[trigger] self@.table.dom().contains(q) && !start.table.dom().contains(q)
                        ==> exists|m: int| first <= m < n && q == p@.prefix(m),
                forall|m: int| first <= m < n ==> self@.is_dir_at(#[trigger] p@.prefix(m)),
                forall|m: int|
                    first <= m < n ==> start.is_dir_at(#[trigger] p@.prefix(m)) || !start.has(
                        p@.prefix(m),
                    ),
            ensures
                n >= len,
                n == len || n == first,
            decreases len - n,
        {
            let a = p.prefix(n);
            let ghost before = self@;
            proof {
                lemma_prefix(p@, first, n as int);
                if self@.has(a@) && !start.has(a@) {
                    let m = choose|m: int| first <= m < n && a@ == p@.prefix(m);
                    lemma_prefix(p@, m, n as int);
                }
                assert(self@.has(a@) == start.has(a@));
                if start.has(a@) {
                    assert(start.table.dom().contains(a@));
                    assert(start.nodes.dom().contains(start.table[a@]));
                    assert(self@.inode_at(a@) == start.inode_at(a@));
                    assert forall|m: int| first <= m < n implies start.has(
                        #[trigger] p@.prefix(m),
                    ) by {
                        lemma_prefix(p@, m, n as int);
                        assert(start.is_dir_at(a@.prefix(m)));
                    }
                    start.lemma_missing_count_zero(p@, n as int);
                }
                assert forall|m: int| first <= m < a@.names.len() implies self@.is_dir_at(
                    #[trigger] a@.prefix(m),
                ) by {
                    lemma_prefix(p@, m, n as int);
                    assert(self@.is_dir_at(p@.prefix(m)));
                }
                self@.lemma_none_missing(a@, first);
                start.lemma_missing_count_grows(p@, n + 1, len);
            }
            match self.lookup(&a) {
                Some(id) => {
                    match self.nodes.inode(id).kind() {
                        InodeType::Dir => {},
                        _ => {
                            proof {
                                assert forall|m: int| first <= m < n implies start.is_dir_at(
                                    #[trigger] p@.prefix(m),
                                ) by {
                                    lemma_prefix(p@, m, n as int);
                                    assert(start.is_dir_at(a@.prefix(m)));
                                }
                                start.lemma_first_missing(p@, first, n as int);
                            }
                            return Err(FloppyError::AlreadyExists);
                        },
                    }
                },
                None => {
                    match self.create_at(a) {
                        Err(e) => {
                            proof {
                                assert(before.exhausted());
                                start.lemma_absent_below(p@, n as int);
                                assert forall|m: int| first <= m < len implies start.is_dir_at(
                                    #[trigger] p@.prefix(m),
                                ) || !start.has(p@.prefix(m)) by {
                                    if m >= n {
                                        assert(!start.has(p@.prefix(m)));
                                    }
                                }
                                start.lemma_not_blocked(p@, first);
                                assert(start.missing_count(p@, n + 1) == start.missing_count(
                                    p@,
                                    n as int,
                                ) + 1);
                            }
                            return Err(e);
                        },
                        Ok(_) => {},
                    }
                    proof {
                        assert forall|q: PathView|
                            #[trigger] before.table.dom().contains(q)
                                && !start.table.dom().contains(q) implies q.names.len()
                            < a@.names.len() by {
                            let m = choose|m: int| first <= m < n && q == p@.prefix(m);
                            lemma_prefix(p@, m, n as int);
                        }
                        assert(p@.has_ancestor(a@));
                        start.lemma_grown_step(before, self@, p@, a@);
                        let inode = self@.inode_at(a@);
                        before.lemma_with_new(a@, inode);
                        assert forall|q: PathView|
                            #[trigger] self@.table.dom().contains(q)
                                && !start.table.dom().contains(q) implies exists|m: int|
                            first <= m < n + 1 && q == p@.prefix(m) by {
                            if q != a@ {
                                assert(before.has(q));
                                assert(before.table.dom().contains(q));
                                let m = choose|m: int| first <= m < n && q == p@.prefix(m);
                                assert(first <= m < n + 1 && q == p@.prefix(m));
                            }
                        }
                        assert forall|m: int| first <= m < n + 1 implies self@.is_dir_at(
                            #[trigger] p@.prefix(m),
                        ) by {
                            if m < n {
                                lemma_prefix(p@, m, n as int);
                                assert(before.is_dir_at(p@.prefix(m)));
                            }
                        }
                    }
                },
            }
            n += 1;
        }
        proof {
            if first <= len {
                lemma_prefix(p@, first, len);
            }
            if n != len {
                start.lemma_missing_count_grows(p@, len, n as int);
            }
            if self@.has(p@) && !start.has(p@) {
                let m = choose|m: int| first <= m < n && p@ == p@.prefix(m);
                lemma_prefix(p@, m, len);
            }
            assert(self@.has(p@) == start.has(p@));
            assert forall|m: int| first <= m < len implies self@.is_dir_at(
                #[trigger] p@.prefix(m),
            ) by {}
            self@.lemma_none_missing(p@, first);
            assert forall|m: int| first <= m < len implies start.is_dir_at(
                #[trigger] p@.prefix(m),
            ) || !start.has(p@.prefix(m)) by {}
            start.lemma_not_blocked(p@, first);
            if start.has(p@) {
                assert(start.table.dom().contains(p@));
                assert forall|m: int| first <= m < len implies start.has(
                    #[trigger] p@.prefix(m),
                ) by {
                    assert(start.is_dir_at(p@.prefix(m)));
                }
                start.lemma_missing_count_zero(p@, len);
            }
        }
        let ghost before = self@;
        let r = self.create_at(p);
        proof {
            if r is Ok {
                assert forall|q: PathView|
                    #[trigger] before.table.dom().contains(q) && !start.table.dom().contains(
                        q,
                    ) implies q.names.len() < p@.names.len() by {
                    let m = choose|m: int| first <= m < n && q == p@.prefix(m);
                    lemma_prefix(p@, m, len);
                }
                start.lemma_grown_step(before, self@, p@, p@);
                before.lemma_with_new(p@, self@.inode_at(p@));
            }
        }
        r
    }
}

/// The mathematical model of a directory builder.
pub struct DirBuilderView {
    pub recursive: bool,
    pub mode: u32,
}

/// Creates directories, alone or with the directories above them.
#[derive(Debug)]
pub struct MemDirBuilder {
    recursive: bool,
    mode: u32,
}

impl View for MemDirBuilder {
    type V = DirBuilderView;

    closed spec fn view(&self) -> DirBuilderView {
        DirBuilderView { recursive: self.recursive, mode: self.mode }
    }
}

impl MemDirBuilder {
    /// Says whether missing directories above the one asked for are
    /// created too.
    pub fn recursive(&mut self, recursive: bool) -> (r: &mut Self)
        ensures
            r@ == (DirBuilderView { recursive, ..old(self)@ }),
            final(self)@ == final(r)@,
    {
        self.recursive = recursive;
        self
    }

    /// Records the mode asked for. Directories are created with mode
    /// `0o755` all the same.
    pub fn mode(&mut self, mode: u32) -> (r: &mut Self)
        ensures
            r@ == (DirBuilderView { mode, ..old(self)@ }),
            final(self)@ == final(r)@,
    {
        self.mode = mode;
        self
    }

    /// Creates the directory `path` in `disk`: with the directories above
    /// it if the builder is recursive, else alone.
    pub fn create(&self, disk: &mut MemFloppyDisk, path: &str) -> (r: Result<(), FloppyError>)
        requires
            old(disk).wf(),
        ensures
            final(disk).wf(),
            self@.recursive ==> {
                &&& r == old(disk)@.create_dir_all_result(normalized(path@))
                &&& old(disk)@.grown(final(disk)@, normalized(path@))
                &&& final(disk)@.next_serial == old(disk)@.next_serial
                    + old(disk)@.dirs_created(normalized(path@))
                &&& final(disk)@.next_id == old(disk)@.next_id + old(disk)@.dirs_created(
                    normalized(path@),
                )
                &&& r is Ok ==> final(disk)@.is_dir_at(normalized(path@))
            },
            !self@.recursive ==> {
                &&& r == old(disk)@.create_result(normalized(path@))
                &&& r is Err ==> final(disk)@ == old(disk)@
                &&& r is Ok ==> old(disk)@.created(
                    final(disk)@,
                    normalized(path@),
                    InodeType::Dir,
                    0o755,
                    Seq::empty(),
                    None,
                )
            },
    {
        if self.recursive {
            disk.create_dir_all(path)
        } else {
            disk.create_dir(path)
        }
    }
}

impl MemFloppyDisk {
    /// A builder that creates one directory at a time, with mode `0o777`
    /// recorded.
    pub fn new_dir_builder(&self) -> (r: MemDirBuilder)
        ensures
            r@ == (DirBuilderView { recursive: false, mode: 0o777 }),
    {
        MemDirBuilder { recursive: false, mode: 0o777 }
    }
}

} // verus!
