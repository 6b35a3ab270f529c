//! Open files: a position paired with the entry that the file was opened
//! on, and the options that files are opened with.

use super::inode::{InodeType, InodeView};
use super::model::{
    read_bytes, read_count, seek_target, written, DiskView, OpenView, SeekFrom,
};
use super::{metadata_of, MemFloppyDisk, MemMetadata, MemPermissions};
use crate::error::FloppyError;
use crate::path::{normalize, normalized, rendered, PathView};
use vstd::prelude::*;

verus! {

/// The options that a file is opened with.
#[derive(Clone, Copy, Debug)]
pub struct MemOpenOptions {
    read: bool,
    write: bool,
    append: bool,
    truncate: bool,
    create: bool,
    create_new: bool,
}

impl View for MemOpenOptions {
    type V = OpenView;

    closed spec fn view(&self) -> OpenView {
        OpenView {
            read: self.read,
            write: self.write,
            append: self.append,
            truncate: self.truncate,
            create: self.create,
            create_new: self.create_new,
        }
    }
}

impl MemOpenOptions {
    /// Options with nothing asked for.
    pub fn new() -> (r: MemOpenOptions)
        ensures
            r@ == (OpenView {
                read: false,
                write: false,
                append: false,
                truncate: false,
                create: false,
                create_new: false,
            }),
    {
        MemOpenOptions {
            read: false,
            write: false,
            append: false,
            truncate: false,
            create: false,
            create_new: false,
        }
    }

    /// Asks for read access, or not.
    pub fn read(self, read: bool) -> (r: MemOpenOptions)
        ensures
            r@ == (OpenView { read, ..self@ }),
    {
        let mut o = self;
        o.read = read;
        o
    }

    /// Asks for write access, or not.
    pub fn write(self, write: bool) -> (r: MemOpenOptions)
        ensures
            r@ == (OpenView { write, ..self@ }),
    {
        let mut o = self;
        o.write = write;
        o
    }

    /// Asks for every write to go to the end of the file, or not.
    pub fn append(self, append: bool) -> (r: MemOpenOptions)
        ensures
            r@ == (OpenView { append, ..self@ }),
    {
        let mut o = self;
        o.append = append;
        o
    }

    /// Asks for the file to be emptied when it is opened, or not.
    pub fn truncate(self, truncate: bool) -> (r: MemOpenOptions)
        ensures
            r@ == (OpenView { truncate, ..self@ }),
    {
        let mut o = self;
        o.truncate = truncate;
        o
    }

    /// Asks for the file to be created if it is missing, or not.
    pub fn create(self, create: bool) -> (r: MemOpenOptions)
        ensures
            r@ == (OpenView { create, ..self@ }),
    {
        let mut o = self;
        o.create = create;
        o
    }

    /// Asks for the file to be created, and for the opening to fail if it
    /// is there already, or not.
    pub fn create_new(self, create_new: bool) -> (r: MemOpenOptions)
        ensures
            r@ == (OpenView { create_new, ..self@ }),
    {
        let mut o = self;
        o.create_new = create_new;
        o
    }
}

/// The mathematical model of an open file: the id of its entry, its
/// position, and the access it was opened with.
pub struct FileView {
    pub node: usize,
    pub position: u64,
    pub read: bool,
    pub write: bool,
    pub append: bool,
}

/// An open file: the id of the entry it was opened on, and a position in
/// its contents.
#[derive(Debug)]
pub struct MemFile {
    node: usize,
    position: u64,
    read: bool,
    write: bool,
    append: bool,
}

impl View for MemFile {
    type V = FileView;

    closed spec fn view(&self) -> FileView {
        FileView {
            node: self.node,
            position: self.position,
            read: self.read,
            write: self.write,
            append: self.append,
        }
    }
}

/// `new` and `f` are what opening `p` with the options `o` makes of the
/// state `old`: an open file at position 0, on the file that `p` leads to,
/// emptied if truncation was asked for, or on a new empty file at `p`.
pub open spec fn opened(
    old: DiskView,
    new: DiskView,
    o: OpenView,
    p: PathView,
    f: FileView,
) -> bool {
    &&& f.position == 0
    &&& f.read == o.read
    &&& f.write == o.writes()
    &&& f.append == o.append
    &&& match old.open_result(o, p) {
        Ok(Some(q)) => {
            let id = old.table[q];
            let base = if o.truncate {
                old.with_inode(id, InodeView { buffer: Seq::empty(), ..old.nodes[id].inode })
            } else {
                old
            };
            f.node == id && new == base.with_handles(id, old.nodes[id].handles + 1)
        },
        Ok(None) => {
            &&& f.node == old.next_id
            &&& new.inode_at(p).is_new(
                old.next_serial,
                InodeType::File,
                0o644,
                rendered(p),
                Seq::empty(),
                None,
            )
            &&& new == old.with_new(p, new.inode_at(p)).with_handles(old.next_id, 1)
        },
        Err(_) => false,
    }
}

impl MemOpenOptions {
    /// Opens the file that `path` leads to, or creates it, as the options
    /// say.
    pub fn open(&self, disk: &mut MemFloppyDisk, path: &str) -> (r: Result<MemFile, FloppyError>)
        requires
            old(disk).wf(),
        ensures
            final(disk).wf(),
            old(disk)@.ancestors_closed() ==> final(disk)@.ancestors_closed(),
            match r {
                Ok(f) => opened(old(disk)@, final(disk)@, self@, normalized(path@), f@),
                Err(e) => old(disk)@.open_result(self@, normalized(path@)) == Err::<
                    Option<PathView>,
                    FloppyError,
                >(e) && final(disk)@ == old(disk)@,
            },
    {
        let writes = self.write || self.append;
        let creates = self.create || self.create_new;
        if ((creates || self.truncate) && !writes) || (self.truncate && self.append) {
            return Err(FloppyError::InvalidInput);
        }
        let p = normalize(path);
        if !disk.is_placeable(&p) {
            return Err(FloppyError::NotFound);
        }
        match disk.lookup(&p) {
            Some(_) => {
                if self.create_new {
                    return Err(FloppyError::AlreadyExists);
                }
                let q = match disk.resolve_symlinks(p) {
                    Err(e) => {
                        return Err(e);
                    },
                    Ok(q) => q,
                };
                let id = match disk.lookup(&q) {
                    Some(id) => id,
                    None => {
                        return Err(FloppyError::NotFound);
                    },
                };
                match disk.node_inode(id).kind() {
                    InodeType::File => {},
                    _ => {
                        return Err(FloppyError::InvalidInput);
                    },
                }
                if disk.node_handles(id) == usize::MAX {
                    return Err(FloppyError::Other);
                }
                if self.truncate {
                    disk.node_truncate(id);
                }
                disk.node_retain(id);
                Ok(
                    MemFile {
                        node: id,
                        position: 0,
                        read: self.read,
                        write: writes,
                        append: self.append,
                    },
                )
            },
            None => {
                if !creates {
                    return Err(FloppyError::NotFound);
                }
                if disk.is_exhausted() {
                    return Err(FloppyError::Other);
                }
                let id = disk.create_open(p);
                Ok(
                    MemFile {
                        node: id,
                        position: 0,
                        read: self.read,
                        write: writes,
                        append: self.append,
                    },
                )
            },
        }
    }
}

impl MemFile {
    /// The position of the file in its contents.
    pub fn position(&self) -> (r: u64)
        ensures
            r == self@.position,
    {
        self.position
    }

    /// Reads from the position on into `buf`, as many bytes as are left
    /// and fit, and moves the position past them. At or past the end that
    /// is no byte, and no error. The file must have been opened for
    /// reading.
    pub fn read(&mut self, disk: &MemFloppyDisk, buf: &mut [u8]) -> (r: Result<usize, FloppyError>)
        requires
            disk.wf(),
        ensures
            match r {
                Ok(n) => {
                    let contents = disk@.nodes[old(self)@.node].inode.buffer;
                    &&& read_access(disk@, old(self)@) is Ok
                    &&& n == read_count(
                        contents.len() as int,
                        old(self)@.position,
                        old(buf)@.len() as int,
                    )
                    &&& final(buf)@ == read_bytes(
                        contents,
                        old(self)@.position,
                        old(buf)@.len() as int,
                    ) + old(buf)@.subrange(n as int, old(buf)@.len() as int)
                    &&& final(self)@ == (FileView {
                        position: (old(self)@.position + n) as u64,
                        ..old(self)@
                    })
                },
                Err(e) => {
                    &&& read_access(disk@, old(self)@) == Err::<(), FloppyError>(e)
                    &&& final(buf)@ == old(buf)@
                    &&& final(self)@ == old(self)@
                },
            },
    {
        if !disk.node_is_open(self.node) {
            return Err(FloppyError::Other);
        }
        if !self.read {
            return Err(FloppyError::InvalidInput);
        }
        let contents = disk.node_inode(self.node).buffer_view();
        let len = contents.len();
        if self.position >= len as u64 {
            return Ok(0);
        }
        let start = self.position as usize;
        let left = len - start;
        let n = if buf.len() <= left {
            buf.len()
        } else {
            left
        };
        let mut i: usize = 0;
        while i < n
            invariant
                i <= n,
                n <= buf.len(),
                buf.len() == old(buf)@.len(),
                start + n <= contents.len(),
                buf@ == contents@.subrange(start as int, start + i) + old(buf)@.subrange(
                    i as int,
                    old(buf)@.len() as int,
                ),
            decreases n - i,
        {
            buf[i] = contents[start + i];
            i += 1;
        }
        self.position = self.position + n as u64;
        Ok(n)
    }
}

/// Whether a read through `f` can be done: the file must be open, and
/// opened for reading.
pub open spec fn read_access(disk: DiskView, f: FileView) -> Result<(), FloppyError> {
    if !disk.is_open(f.node) {
        Err(FloppyError::Other)
    } else if !f.read {
        Err(FloppyError::InvalidInput)
    } else {
        Ok(())
    }
}

/// Where a write of `n` bytes through the open file `f` lands in contents
/// of length `len`: at the end when appending, else at the position.
pub open spec fn write_offset(f: FileView, len: int) -> int {
    if f.append {
        len
    } else {
        f.position as int
    }
}

/// Whether a write of `n` bytes through `f` can be done: the file must be
/// open, and opened for writing, and the end of what is written must be a
/// length that the machine can hold.
pub open spec fn write_result(disk: DiskView, f: FileView, n: int) -> Result<(), FloppyError> {
    if !disk.is_open(f.node) {
        Err(FloppyError::Other)
    } else if !f.write {
        Err(FloppyError::InvalidInput)
    } else if write_offset(f, disk.nodes[f.node].inode.buffer.len() as int) + n > usize::MAX {
        Err(FloppyError::InvalidInput)
    } else {
        Ok(())
    }
}

/// Whether a seek through `f` can be done: the file must be open, and the
/// position that the seek leads to must be one that a position can hold.
pub open spec fn seek_result(disk: DiskView, f: FileView, pos: SeekFrom) -> Result<
    u64,
    FloppyError,
> {
    if !disk.is_open(f.node) {
        Err(FloppyError::Other)
    } else {
        let t = seek_target(f.position, disk.nodes[f.node].inode.buffer.len() as int, pos);
        if t < 0 || t > u64::MAX {
            Err(FloppyError::InvalidInput)
        } else {
            Ok(t as u64)
        }
    }
}

impl MemFile {
    /// Writes `data` at the position, or at the end if the file was opened
    /// for appending, and moves the position past it. The contents grow as
    /// needed, with zeros between their old end and the place written.
    pub fn write(&mut self, disk: &mut MemFloppyDisk, data: &[u8]) -> (r: Result<
        usize,
        FloppyError,
    >)
        requires
            old(disk).wf(),
        ensures
            final(disk).wf(),
            match r {
                Ok(n) => {
                    let id = old(self)@.node;
                    let inode = old(disk)@.nodes[id].inode;
                    let at = write_offset(old(self)@, inode.buffer.len() as int);
                    &&& write_result(old(disk)@, old(self)@, data@.len() as int) is Ok
                    &&& n == data@.len()
                    &&& final(disk)@ == old(disk)@.with_inode(
                        id,
                        InodeView { buffer: written(inode.buffer, at, data@), ..inode },
                    )
                    &&& final(self)@ == (FileView { position: (at + n) as u64, ..old(self)@ })
                },
                Err(e) => {
                    &&& write_result(old(disk)@, old(self)@, data@.len() as int) == Err::<
                        (),
                        FloppyError,
                    >(e)
                    &&& final(disk)@ == old(disk)@
                    &&& final(self)@ == old(self)@
                },
            },
    {
        if !disk.node_is_open(self.node) {
            return Err(FloppyError::Other);
        }
        if !self.write {
            return Err(FloppyError::InvalidInput);
        }
        let len = disk.node_inode(self.node).buffer_view().len();
        let at: usize = if self.append {
            len
        } else if self.position > usize::MAX as u64 {
            return Err(FloppyError::InvalidInput);
        } else {
            self.position as usize
        };
        if data.len() > usize::MAX - at {
            return Err(FloppyError::InvalidInput);
        }
        disk.node_write(self.node, at, data);
        self.position = (at + data.len()) as u64;
        Ok(data.len())
    }

    /// Moves the position: to `n` for `Start(n)`, by `d` for `Current(d)`,
    /// and for `End(d)` to `d` from the end of the contents, but not past
    /// it. Returns the new position.
    pub fn seek(&mut self, disk: &MemFloppyDisk, pos: SeekFrom) -> (r: Result<u64, FloppyError>)
        requires
            disk.wf(),
        ensures
            r == seek_result(disk@, old(self)@, pos),
            match r {
                Ok(t) => final(self)@ == (FileView { position: t, ..old(self)@ }),
                Err(_) => final(self)@ == old(self)@,
            },
    {
        if !disk.node_is_open(self.node) {
            return Err(FloppyError::Other);
        }
        let len = disk.node_inode(self.node).buffer_view().len();
        let target: i128 = match pos {
            SeekFrom::Start(n) => n as i128,
            SeekFrom::Current(d) => self.position as i128 + d as i128,
            SeekFrom::End(d) => if d > 0 {
                len as i128
            } else {
                len as i128 + d as i128
            },
        };
        if target < 0 || target > u64::MAX as i128 {
            return Err(FloppyError::InvalidInput);
        }
        self.position = target as u64;
        Ok(self.position)
    }

    /// Records `size` as the advisory size of the file. The contents are
    /// neither cut nor extended.
    pub fn set_len(&mut self, disk: &mut MemFloppyDisk, size: u64) -> (r: Result<(), FloppyError>)
        requires
            old(disk).wf(),
        ensures
            final(disk).wf(),
            final(self)@ == old(self)@,
            match r {
                Ok(_) => {
                    let id = old(self)@.node;
                    &&& old(disk)@.is_open(id)
                    &&& final(disk)@ == old(disk)@.with_inode(
                        id,
                        InodeView { size, ..old(disk)@.nodes[id].inode },
                    )
                },
                Err(e) => !old(disk)@.is_open(old(self)@.node) && e == FloppyError::Other
                    && final(disk)@ == old(disk)@,
            },
    {
        if !disk.node_is_open(self.node) {
            return Err(FloppyError::Other);
        }
        disk.node_set_len(self.node, size);
        Ok(())
    }

    /// Opens the same file once more, at the same position. The two
    /// positions move independently from then on.
    pub fn try_clone(&self, disk: &mut MemFloppyDisk) -> (r: Result<MemFile, FloppyError>)
        requires
            old(disk).wf(),
        ensures
            final(disk).wf(),
            match r {
                Ok(f) => {
                    let id = self@.node;
                    &&& old(disk)@.is_open(id)
                    &&& old(disk)@.nodes[id].handles < usize::MAX
                    &&& f@ == self@
                    &&& final(disk)@ == old(disk)@.with_handles(
                        id,
                        old(disk)@.nodes[id].handles + 1,
                    )
                },
                Err(e) => {
                    &&& !(old(disk)@.is_open(self@.node) && old(disk)@.nodes[self@.node].handles
                        < usize::MAX)
                    &&& e == FloppyError::Other
                    &&& final(disk)@ == old(disk)@
                },
            },
    {
        if !disk.node_is_open(self.node) || disk.node_handles(self.node) == usize::MAX {
            return Err(FloppyError::Other);
        }
        disk.node_retain(self.node);
        Ok(
            MemFile {
                node: self.node,
                position: self.position,
                read: self.read,
                write: self.write,
                append: self.append,
            },
        )
    }

    /// The attributes of the file.
    pub fn metadata(&self, disk: &MemFloppyDisk) -> (r: Result<MemMetadata, FloppyError>)
        requires
            disk.wf(),
        ensures
            match r {
                Ok(m) => disk@.is_open(self@.node) && m == metadata_of(
                    disk@.nodes[self@.node].inode,
                ),
                Err(e) => !disk@.is_open(self@.node) && e == FloppyError::Other,
            },
    {
        if !disk.node_is_open(self.node) {
            return Err(FloppyError::Other);
        }
        Ok(MemMetadata::of(disk.node_inode(self.node)))
    }

    /// The mode of the file.
    pub fn permissions(&self, disk: &MemFloppyDisk) -> (r: Result<MemPermissions, FloppyError>)
        requires
            disk.wf(),
        ensures
            match r {
                Ok(m) => disk@.is_open(self@.node) && m.mode == disk@.nodes[self@.node].inode.mode,
                Err(e) => !disk@.is_open(self@.node) && e == FloppyError::Other,
            },
    {
        if !disk.node_is_open(self.node) {
            return Err(FloppyError::Other);
        }
        Ok(disk.node_inode(self.node).permissions())
    }

    /// Sets the mode of the file.
    pub fn set_permissions(&self, disk: &mut MemFloppyDisk, perm: MemPermissions) -> (r: Result<
        (),
        FloppyError,
    >)
        requires
            old(disk).wf(),
        ensures
            final(disk).wf(),
            match r {
                Ok(_) => old(disk)@.is_open(self@.node) && final(disk)@ == old(disk)@.with_inode(
                    self@.node,
                    InodeView { mode: perm.mode, ..old(disk)@.nodes[self@.node].inode },
                ),
                Err(e) => {
                    &&& !old(disk)@.is_open(self@.node)
                    &&& e == FloppyError::Other
                    &&& final(disk)@ == old(disk)@
                },
            },
    {
        if !disk.node_is_open(self.node) {
            return Err(FloppyError::Other);
        }
        disk.node_set_permissions(self.node, perm);
        Ok(())
    }

    /// Nothing is buffered, so there is nothing to do.
    pub fn sync_all(&mut self) -> (r: Result<(), FloppyError>)
        ensures
            r is Ok,
            final(self)@ == old(self)@,
    {
        Ok(())
    }

    /// Nothing is buffered, so there is nothing to do.
    pub fn sync_data(&mut self) -> (r: Result<(), FloppyError>)
        ensures
            r is Ok,
            final(self)@ == old(self)@,
    {
        Ok(())
    }

    /// Closes the file. The entry it was opened on is dropped if no path
    /// leads to it any more and no other open file points at it.
    pub fn close(self, disk: &mut MemFloppyDisk)
        requires
            old(disk).wf(),
        ensures
            final(disk).wf(),
            final(disk)@ == if old(disk)@.is_open(self@.node) {
                old(disk)@.closed(self@.node)
            } else {
                old(disk)@
            },
    {
        if disk.node_is_open(self.node) {
            disk.node_release(self.node);
        }
    }
}

} // verus!
