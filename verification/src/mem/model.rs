//! The mathematical model of the in-memory filesystem: what the entry table
//! and the stored entries are, what each guard decides, and what each
//! operation leaves behind.

use super::inode::{InodeType, InodeView};
use crate::error::FloppyError;
use crate::path::{
    lemma_prefix, lemma_rebased, lemma_rebased_prefix, lemma_starts_with_is_prefix,
    lemma_starts_with_prefix, lemma_starts_with_trans, normalized, rendered, PathView,
};
use vstd::prelude::*;

verus! {

/// How many symlinks one lookup follows before it gives up.
pub const MAX_SYMLINK_HOPS: usize = 40;

/// The key that a path of the table gets when what starts with `from` is
/// moved to `to`.
pub open spec fn rekeyed(q: PathView, from: PathView, to: PathView) -> PathView {
    if q.starts_with(from) {
        q.rebased(from, to)
    } else {
        q
    }
}

/// The mathematical model of a stored entry: the entry itself and the
/// number of open files that point at it.
pub struct NodeView {
    pub inode: InodeView,
    pub handles: nat,
}

/// The state of a filesystem: the entry table, which maps each path to the
/// id of its entry; the stored entries by id, each with the number of open
/// files that point at it; and the next id and serial number to hand out.
pub struct DiskView {
    pub table: Map<PathView, usize>,
    pub nodes: Map<usize, NodeView>,
    pub next_id: usize,
    pub next_serial: u64,
}

impl DiskView {
    /// The table has an entry at `p`.
    pub open spec fn has(self, p: PathView) -> bool {
        self.table.dom().contains(p)
    }

    /// An entry is stored under `id`.
    pub open spec fn live(self, id: usize) -> bool {
        self.nodes.dom().contains(id)
    }

    /// The entry at `p`.
    pub open spec fn inode_at(self, p: PathView) -> InodeView {
        self.nodes[self.table[p]].inode
    }

    /// Some path of the table leads to the entry under `id`.
    pub open spec fn linked(self, id: usize) -> bool {
        exists|p: PathView| #[trigger] self.table.dom().contains(p) && self.table[p] == id
    }

    /// The entry at `p` is there, and is a directory.
    pub open spec fn is_dir_at(self, p: PathView) -> bool {
        self.has(p) && self.inode_at(p).kind == InodeType::Dir
    }

    /// The state is consistent: the table and the store fit together, and
    /// every path of the table has all of its ancestors in the table as
    /// directories.
    pub open spec fn wf(self) -> bool {
        self.fits() && self.ancestors_closed()
    }

    /// The table and the store fit together: every path of the table is in
    /// normal form, names something and leads to a stored entry, no two
    /// paths lead to the same one, every stored entry is reached from the
    /// table or held open, ids and serial numbers in use are below the next
    /// ones, serial numbers are unique, and every symlink has a target.
    pub open spec fn fits(self) -> bool {
        &&& forall|p: PathView| #[trigger]
            self.table.dom().contains(p) ==> p.clean() && p.named()
                && self.nodes.dom().contains(self.table[p])
        &&& forall|p: PathView, q: PathView|
            #[trigger] self.table.dom().contains(p) && #[trigger] self.table.dom().contains(q)
                && p != q ==> self.table[p] != self.table[q]
        &&& forall|id: usize| #[trigger]
            self.nodes.dom().contains(id) ==> {
                &&& id < self.next_id
                &&& self.nodes[id].inode.wf()
                &&& self.nodes[id].inode.serial < self.next_serial
                &&& (self.nodes[id].handles > 0 || self.linked(id))
            }
        &&& forall|a: usize, b: usize|
            #[trigger] self.nodes.dom().contains(a) && #[trigger] self.nodes.dom().contains(b)
                && a != b ==> self.nodes[a].inode.serial != self.nodes[b].inode.serial
    }

    /// Every path of the table has all of its ancestors in the table too,
    /// as directories.
    pub open spec fn ancestors_closed(self) -> bool {
        forall|p: PathView, n: int|
            #[trigger] self.table.dom().contains(p) && p.first_depth() <= n < p.names.len()
                ==> self.is_dir_at(#[trigger] p.prefix(n))
    }

    /// Nothing below `p` has an entry.
    pub open spec fn nothing_below(self, p: PathView) -> bool {
        forall|q: PathView| #[trigger] self.table.dom().contains(q) && q.starts_with(p) ==> q == p
    }

    /// The first prefix of `p`, from `n` names on and short of `p` itself,
    /// that is not in the table as a directory.
    pub open spec fn missing_from(self, p: PathView, n: int) -> Option<PathView>
        decreases p.names.len() - n,
    {
        if n >= p.names.len() {
            None
        } else if !self.is_dir_at(p.prefix(n)) {
            Some(p.prefix(n))
        } else {
            self.missing_from(p, n + 1)
        }
    }

    /// The outermost ancestor of `p` that is not in the table as a
    /// directory, if there is one.
    pub open spec fn ancestor_missing(self, p: PathView) -> Option<PathView> {
        self.missing_from(p, p.first_depth())
    }

    /// The guard of operations on an existing entry: every ancestor of `p`
    /// must be there as a directory, and `p` itself must be there, else
    /// `NotFound`.
    pub open spec fn require_present(self, p: PathView) -> Result<(), FloppyError> {
        if self.ancestor_missing(p) is Some || !self.has(p) {
            Err(FloppyError::NotFound)
        } else {
            Ok(())
        }
    }

    /// An entry can stand at `p`: `p` names something, and every ancestor
    /// of `p` is there as a directory.
    pub open spec fn placeable(self, p: PathView) -> bool {
        p.named() && self.ancestor_missing(p) is None
    }

    /// The guard of operations that create an entry: an entry must be able
    /// to stand at `p`, else `NotFound`, and none must, else
    /// `AlreadyExists`.
    pub open spec fn require_absent(self, p: PathView) -> Result<(), FloppyError> {
        if !self.placeable(p) {
            Err(FloppyError::NotFound)
        } else if self.has(p) {
            Err(FloppyError::AlreadyExists)
        } else {
            Ok(())
        }
    }

    /// The guard of operations that put an entry at `p` whether or not one
    /// is there: an entry must be able to stand at `p`, else `NotFound`.
    pub open spec fn require_parent(self, p: PathView) -> Result<(), FloppyError> {
        if !self.placeable(p) {
            Err(FloppyError::NotFound)
        } else {
            Ok(())
        }
    }

    /// Follows symlinks from `p` to the first entry that is not one,
    /// through at most `fuel` symlinks. A path without an entry is
    /// `NotFound`, a symlink without a target is `Other`, and one symlink
    /// too many is `TooManyLinks`. A target is normalised before it is
    /// looked up.
    pub open spec fn follow(self, p: PathView, fuel: nat) -> Result<PathView, FloppyError>
        decreases fuel,
    {
        if !self.has(p) {
            Err(FloppyError::NotFound)
        } else if self.inode_at(p).kind != InodeType::Symlink {
            Ok(p)
        } else {
            match self.inode_at(p).symlink_target {
                None => Err(FloppyError::Other),
                Some(target) => {
                    if fuel == 0 {
                        Err(FloppyError::TooManyLinks)
                    } else {
                        self.follow(normalized(target), (fuel - 1) as nat)
                    }
                },
            }
        }
    }

    /// Where `p` leads once its symlinks are followed.
    pub open spec fn resolve(self, p: PathView) -> Result<PathView, FloppyError> {
        self.follow(p, MAX_SYMLINK_HOPS as nat)
    }

    /// Some entry of the table lies directly inside `dir`.
    pub open spec fn has_children(self, dir: PathView) -> bool {
        exists|q: PathView| #[trigger] self.table.dom().contains(q) && q.is_child_of(dir)
    }

    /// The state with only those paths of the table that `keep` accepts.
    /// An entry that no path leads to any more stays stored only while an
    /// open file points at it.
    pub open spec fn retaining(self, keep: spec_fn(PathView) -> bool) -> DiskView {
        DiskView {
            table: self.table.restrict(Set::new(|q: PathView| keep(q))),
            nodes: self.nodes.restrict(
                Set::new(
                    |id: usize|
                        self.nodes[id].handles > 0 || exists|q: PathView|
                            #[trigger] self.table.dom().contains(q) && keep(q) && self.table[q]
                                == id,
                ),
            ),
            next_id: self.next_id,
            next_serial: self.next_serial,
        }
    }

    /// The state without the entry at `p`.
    pub open spec fn unlinked(self, p: PathView) -> DiskView {
        self.retaining(|q: PathView| q != p)
    }

    /// The state without the entry at `p` and without every entry below
    /// it.
    pub open spec fn unlinked_under(self, p: PathView) -> DiskView {
        self.retaining(|q: PathView| !q.starts_with(p))
    }

    /// The state with the new entry `inode` at `p`, in place of whatever
    /// was there, under the next id; one serial number is used up.
    pub open spec fn with_new(self, p: PathView, inode: InodeView) -> DiskView {
        let base = self.unlinked(p);
        DiskView {
            table: base.table.insert(p, self.next_id),
            nodes: base.nodes.insert(self.next_id, NodeView { inode, handles: 0 }),
            next_id: (self.next_id + 1) as usize,
            next_serial: (self.next_serial + 1) as u64,
        }
    }

    /// The state with the entry under `id` replaced by `inode`.
    pub open spec fn with_inode(self, id: usize, inode: InodeView) -> DiskView {
        DiskView {
            nodes: self.nodes.insert(id, NodeView { inode, handles: self.nodes[id].handles }),
            ..self
        }
    }

    /// The state with the open files of the entry under `id` counted as
    /// `handles`.
    pub open spec fn with_handles(self, id: usize, handles: nat) -> DiskView {
        DiskView {
            nodes: self.nodes.insert(id, NodeView { inode: self.nodes[id].inode, handles }),
            ..self
        }
    }

    /// No serial number, or no id, is left to hand out.
    pub open spec fn exhausted(self) -> bool {
        self.next_serial == u64::MAX || self.next_id == usize::MAX
    }
}

impl DiskView {
    /// The state of a filesystem without any entry.
    pub open spec fn empty() -> DiskView {
        DiskView { table: Map::empty(), nodes: Map::empty(), next_id: 0, next_serial: 0 }
    }

    /// In a consistent state, taking the entry at `p` away removes `p` from
    /// the table and drops the entry unless an open file points at it.
    pub proof fn lemma_unlinked(self, p: PathView)
        requires
            self.fits(),
        ensures
            self.unlinked(p).table == self.table.remove(p),
            self.unlinked(p).nodes == if self.has(p) && self.nodes[self.table[p]].handles == 0 {
                self.nodes.remove(self.table[p])
            } else {
                self.nodes
            },
            self.unlinked(p).fits(),
            forall|q: PathView| #[trigger] self.unlinked(p).has(q) == (self.has(q) && q != p),
            forall|q: PathView|
                self.has(q) && q != p ==> #[trigger] self.unlinked(p).inode_at(q)
                    == self.inode_at(q),
    {
        let u = self.unlinked(p);
        assert(u.table =~= self.table.remove(p));
        assert forall|q: PathView| self.has(q) && q != p implies #[trigger] u.inode_at(q)
            == self.inode_at(q) by {
            assert(self.table.dom().contains(q));
            assert(u.table.dom().contains(q));
            assert(u.nodes.dom().contains(u.table[q]));
        }
        assert forall|id: usize| #[trigger] u.nodes.dom().contains(id) implies u.nodes[id].handles
            > 0 || u.linked(id) by {
            if u.nodes[id].handles == 0 {
                let q = choose|q: PathView| #[trigger]
                    self.table.dom().contains(q) && self.table[q] == id;
                assert(u.table.dom().contains(q) && u.table[q] == id);
            }
        }
    }

    /// Adding a well-formed new entry under the next serial number keeps
    /// the table and the store together.
    pub proof fn lemma_with_new(self, p: PathView, inode: InodeView)
        requires
            self.fits(),
            inode.wf(),
            inode.serial == self.next_serial,
            !self.exhausted(),
        ensures
            p.clean() && p.named() ==> self.with_new(p, inode).fits(),
            self.with_new(p, inode).has(p),
            self.with_new(p, inode).inode_at(p) == inode,
            forall|q: PathView| q != p ==> self.with_new(p, inode).has(q) == self.has(q),
            forall|q: PathView|
                q != p && self.has(q) ==> #[trigger] self.with_new(p, inode).inode_at(q)
                    == self.inode_at(q),
    {
        self.lemma_unlinked(p);
        let u = self.unlinked(p);
        let n = self.with_new(p, inode);
        let id = self.next_id;
        assert(!u.nodes.dom().contains(id));
        assert forall|q: PathView| q != p && self.has(q) implies #[trigger] n.inode_at(q)
            == self.inode_at(q) by {
            assert(u.has(q));
            assert(u.table.dom().contains(q));
            assert(u.nodes.dom().contains(u.table[q]));
            assert(u.inode_at(q) == self.inode_at(q));
        }
        assert forall|id2: usize| #[trigger] n.nodes.dom().contains(id2) implies n.nodes[id2]
            .handles > 0 || n.linked(id2) by {
            if id2 == id {
                assert(n.table.dom().contains(p) && n.table[p] == id2);
            } else if n.nodes[id2].handles == 0 {
                let q = choose|q: PathView| #[trigger]
                    u.table.dom().contains(q) && u.table[q] == id2;
                assert(n.table.dom().contains(q) && n.table[q] == id2);
            }
        }
    }
}

impl DiskView {
    /// `new` is this state with a new entry at `p` that has the given kind,
    /// mode, contents and target, the path `p` as its text, and the next
    /// serial number.
    pub open spec fn created(
        self,
        new: DiskView,
        p: PathView,
        kind: InodeType,
        mode: u32,
        buffer: Seq<u8>,
        target: Option<Seq<char>>,
    ) -> bool {
        &&& new == self.with_new(p, new.inode_at(p))
        &&& new.inode_at(p).is_new(self.next_serial, kind, mode, rendered(p), buffer, target)
    }

    /// Whether an entry can be created at `p`, where none may be.
    pub open spec fn create_result(self, p: PathView) -> Result<(), FloppyError> {
        match self.require_absent(p) {
            Err(e) => Err(e),
            Ok(_) => if self.exhausted() {
                Err(FloppyError::Other)
            } else {
                Ok(())
            },
        }
    }

    /// Whether a file can be put at `p`, in place of what may be there. A
    /// directory is not replaced: `InvalidInput`.
    pub open spec fn write_result(self, p: PathView) -> Result<(), FloppyError> {
        match self.require_parent(p) {
            Err(e) => Err(e),
            Ok(_) => if self.is_dir_at(p) {
                Err(FloppyError::InvalidInput)
            } else if self.exhausted() {
                Err(FloppyError::Other)
            } else {
                Ok(())
            },
        }
    }

    /// The file that `p` leads to: `p` must be there with its ancestors,
    /// and what it leads to through symlinks must be a file, else
    /// `InvalidInput`.
    pub open spec fn file_at(self, p: PathView) -> Result<PathView, FloppyError> {
        match self.require_present(p) {
            Err(e) => Err(e),
            Ok(_) => match self.resolve(p) {
                Err(e) => Err(e),
                Ok(q) => if self.inode_at(q).kind == InodeType::File {
                    Ok(q)
                } else {
                    Err(FloppyError::InvalidInput)
                },
            },
        }
    }

    /// What reading the file at `p` returns: its whole contents.
    pub open spec fn read_result(self, p: PathView) -> Result<Seq<u8>, FloppyError> {
        match self.file_at(p) {
            Err(e) => Err(e),
            Ok(q) => Ok(self.inode_at(q).buffer),
        }
    }

    /// What reading the file at `p` as text returns: its contents decoded,
    /// or `InvalidData` if they are not valid UTF-8.
    pub open spec fn read_to_string_result(self, p: PathView) -> Result<Seq<char>, FloppyError> {
        match self.read_result(p) {
            Err(e) => Err(e),
            Ok(bytes) => if vstd::utf8::valid_utf8(bytes) {
                Ok(vstd::utf8::decode_utf8(bytes))
            } else {
                Err(FloppyError::InvalidData)
            },
        }
    }

    /// What reading the symlink at `p` returns: its target as it was given,
    /// not resolved. An entry that is not a symlink is `InvalidInput`.
    pub open spec fn read_link_result(self, p: PathView) -> Result<Seq<char>, FloppyError> {
        match self.require_present(p) {
            Err(e) => Err(e),
            Ok(_) => if self.inode_at(p).kind != InodeType::Symlink {
                Err(FloppyError::InvalidInput)
            } else {
                match self.inode_at(p).symlink_target {
                    None => Err(FloppyError::Other),
                    Some(t) => Ok(t),
                }
            },
        }
    }

    /// The entry whose attributes are those of `p`, symlinks followed: a
    /// symlink that leads nowhere is `Other`.
    pub open spec fn metadata_result(self, p: PathView) -> Result<PathView, FloppyError> {
        match self.require_present(p) {
            Err(e) => Err(e),
            Ok(_) => match self.resolve(p) {
                Err(FloppyError::NotFound) => Err(FloppyError::Other),
                Err(e) => Err(e),
                Ok(q) => Ok(q),
            },
        }
    }

    /// Whether `p` leads to an entry, symlinks followed: `false` if `p` or
    /// a target on the way is missing. The guards are not used.
    pub open spec fn try_exists_result(self, p: PathView) -> Result<bool, FloppyError> {
        match self.resolve(p) {
            Ok(_) => Ok(true),
            Err(FloppyError::NotFound) => Ok(false),
            Err(e) => Err(e),
        }
    }

    /// The canonical form of `p`: `p` itself where the table has no entry
    /// for it, else what it leads to through symlinks.
    pub open spec fn canonicalize_result(self, p: PathView) -> Result<PathView, FloppyError> {
        if !self.has(p) {
            Ok(p)
        } else {
            self.resolve(p)
        }
    }
}

impl DiskView {
    /// What symlinks lead to has an entry, and that entry is no symlink.
    pub proof fn lemma_follow_has(self, p: PathView, fuel: nat)
        ensures
            self.follow(p, fuel) is Ok ==> self.has(self.follow(p, fuel)->Ok_0) && self.inode_at(
                self.follow(p, fuel)->Ok_0,
            ).kind != InodeType::Symlink,
        decreases fuel,
    {
        if self.has(p) && self.inode_at(p).kind == InodeType::Symlink && self.inode_at(
            p,
        ).symlink_target is Some && fuel > 0 {
            let target = self.inode_at(p).symlink_target->0;
            self.lemma_follow_has(normalized(target), (fuel - 1) as nat);
        }
    }

    /// What symlinks lead to has an entry, and that entry is no symlink.
    pub proof fn lemma_resolve_has(self, p: PathView)
        ensures
            self.resolve(p) is Ok ==> self.has(self.resolve(p)->Ok_0) && self.inode_at(
                self.resolve(p)->Ok_0,
            ).kind != InodeType::Symlink,
    {
        self.lemma_follow_has(p, MAX_SYMLINK_HOPS as nat);
    }
}

impl DiskView {
    /// What the table keeps depends only on what `keep` says of the paths
    /// that it has.
    pub proof fn lemma_retaining_ext(
        self,
        k1: spec_fn(PathView) -> bool,
        k2: spec_fn(PathView) -> bool,
    )
        requires
            forall|q: PathView| #[trigger] self.table.dom().contains(q) ==> k1(q) == k2(q),
        ensures
            self.retaining(k1) == self.retaining(k2),
    {
        let a = self.retaining(k1);
        let b = self.retaining(k2);
        assert(a.table =~= b.table);
        assert(a.nodes =~= b.nodes);
    }

    /// Taking the entry at `p` away is keeping every other path.
    pub proof fn lemma_unlinked_as(self, p: PathView, keep: spec_fn(PathView) -> bool)
        requires
            forall|q: PathView| #[trigger] self.table.dom().contains(q) ==> keep(q) == (q != p),
        ensures
            self.unlinked(p) == self.retaining(keep),
    {
        let a = self.unlinked(p);
        let b = self.retaining(keep);
        assert(a.table =~= b.table);
        assert(a.nodes =~= b.nodes);
    }

    /// Keeping part of a consistent state leaves a consistent state, in
    /// which every entry that is left is as it was.
    pub proof fn lemma_retaining_wf(self, keep: spec_fn(PathView) -> bool)
        requires
            self.fits(),
        ensures
            self.retaining(keep).fits(),
            forall|q: PathView| #[trigger]
                self.retaining(keep).has(q) == (self.has(q) && keep(q)),
            forall|q: PathView|
                self.has(q) && keep(q) ==> #[trigger] self.retaining(keep).inode_at(q)
                    == self.inode_at(q),
    {
        let r = self.retaining(keep);
        assert forall|q: PathView| self.has(q) && keep(q) implies #[trigger] r.inode_at(q)
            == self.inode_at(q) by {
            assert(self.table.dom().contains(q));
            assert(r.table.dom().contains(q));
            assert(self.table.dom().contains(q) && keep(q) && self.table[q] == self.table[q]);
            assert(r.nodes.dom().contains(r.table[q]));
        }
        assert forall|id: usize| #[trigger] r.nodes.dom().contains(id) implies r.nodes[id].handles
            > 0 || r.linked(id) by {
            if r.nodes[id].handles == 0 {
                let q = choose|q: PathView| #[trigger]
                    self.table.dom().contains(q) && keep(q) && self.table[q] == id;
                assert(r.table.dom().contains(q) && r.table[q] == id);
            }
        }
    }

    /// Keeping part of what was kept is keeping what both accept.
    pub proof fn lemma_retaining_twice(
        self,
        k1: spec_fn(PathView) -> bool,
        k2: spec_fn(PathView) -> bool,
    )
        requires
            self.fits(),
        ensures
            self.retaining(k1).retaining(k2) == self.retaining(|q: PathView| k1(q) && k2(q)),
    {
        let a = self.retaining(k1);
        let b = a.retaining(k2);
        let both = |q: PathView| k1(q) && k2(q);
        let c = self.retaining(both);
        self.lemma_retaining_wf(k1);
        assert(b.table =~= c.table);
        assert(b.nodes =~= c.nodes);
    }

    /// Whether the entry at `p` can be removed as a directory: it must be
    /// there with its ancestors, and nothing may lie directly inside it,
    /// else `InvalidInput`.
    pub open spec fn remove_dir_result(self, p: PathView) -> Result<(), FloppyError> {
        match self.require_present(p) {
            Err(e) => Err(e),
            Ok(_) => if self.has_children(p) {
                Err(FloppyError::InvalidInput)
            } else {
                Ok(())
            },
        }
    }

    /// Whether the entry at `p` can be removed as a file: it must be there
    /// with its ancestors, and must not be a directory, else
    /// `InvalidInput`.
    pub open spec fn remove_file_result(self, p: PathView) -> Result<(), FloppyError> {
        match self.require_present(p) {
            Err(e) => Err(e),
            Ok(_) => if self.inode_at(p).kind == InodeType::Dir {
                Err(FloppyError::InvalidInput)
            } else {
                Ok(())
            },
        }
    }

    /// Whether the entry at `from` can be moved to `to`: `from` must be
    /// there and `to` must not, each with its ancestors in place, and `to`
    /// must not lie below `from`, else `InvalidInput`.
    pub open spec fn rename_result(self, from: PathView, to: PathView) -> Result<(), FloppyError> {
        match self.require_present(from) {
            Err(e) => Err(e),
            Ok(_) => match self.require_absent(to) {
                Err(e) => Err(e),
                Ok(_) => if to.starts_with(from) {
                    Err(FloppyError::InvalidInput)
                } else if self.exhausted() {
                    Err(FloppyError::Other)
                } else {
                    Ok(())
                },
            },
        }
    }

    /// The state with the entry at `from` and every entry below it moved
    /// to `to`: a path that starts with `from` now starts with `to`
    /// instead and leads to the entry it led to, and every other path is as
    /// it was. The entry of `from` itself gets the next serial number and
    /// `to` as its path.
    pub open spec fn renamed(self, from: PathView, to: PathView) -> DiskView {
        let id = self.table[from];
        DiskView {
            table: Map::new(
                |x: PathView|
                    if x.starts_with(to) {
                        self.has(x.rebased(to, from))
                    } else {
                        self.has(x) && !x.starts_with(from)
                    },
                |x: PathView|
                    if x.starts_with(to) {
                        self.table[x.rebased(to, from)]
                    } else {
                        self.table[x]
                    },
            ),
            nodes: self.nodes.insert(
                id,
                NodeView {
                    inode: InodeView {
                        serial: self.next_serial,
                        path: rendered(to),
                        ..self.nodes[id].inode
                    },
                    handles: self.nodes[id].handles,
                },
            ),
            next_id: self.next_id,
            next_serial: (self.next_serial + 1) as u64,
        }
    }

    /// Where there is no entry at `p` and an entry could stand there,
    /// nothing in the table starts with `p`.
    pub proof fn lemma_nothing_at_or_below(self, p: PathView)
        requires
            self.wf(),
            !self.has(p),
            p.named(),
        ensures
            forall|q: PathView| #[trigger] self.table.dom().contains(q) ==> !q.starts_with(p),
    {
        assert forall|q: PathView| #[trigger] self.table.dom().contains(q) implies !q.starts_with(
            p,
        ) by {
            if q.starts_with(p) {
                lemma_starts_with_is_prefix(q, p);
                assert(self.is_dir_at(q.prefix(p.names.len() as int)));
            }
        }
    }

    /// How a move re-keys the table: each path of the old table is found
    /// under its new key with its old entry, and each path of the new table
    /// comes from one of the old.
    pub proof fn lemma_renamed_keys(self, from: PathView, to: PathView)
        requires
            self.wf(),
            self.has(from),
            !self.has(to),
            to.named(),
            !to.starts_with(from),
        ensures
            forall|q: PathView| #[trigger]
                self.table.dom().contains(q) ==> {
                    &&& self.renamed(from, to).has(rekeyed(q, from, to))
                    &&& self.renamed(from, to).table[rekeyed(q, from, to)] == self.table[q]
                },
            forall|x: PathView| #[trigger]
                self.renamed(from, to).table.dom().contains(x) ==> {
                    &&& self.has(rekeyed(x, to, from))
                    &&& rekeyed(rekeyed(x, to, from), from, to) == x
                    &&& self.renamed(from, to).table[x] == self.table[rekeyed(x, to, from)]
                },
            forall|q: PathView| #[trigger] self.table.dom().contains(q) ==> !q.starts_with(to),
            forall|q: PathView| #[trigger]
                self.table.dom().contains(q) ==> rekeyed(rekeyed(q, from, to), to, from) == q,
    {
        let r = self.renamed(from, to);
        self.lemma_nothing_at_or_below(to);
        assert forall|q: PathView| #[trigger] self.table.dom().contains(q) implies rekeyed(
            rekeyed(q, from, to),
            to,
            from,
        ) == q by {
            if q.starts_with(from) {
                lemma_rebased(q, from, to);
            }
        }
        assert forall|q: PathView| #[trigger] self.table.dom().contains(q) implies {
            &&& r.has(rekeyed(q, from, to))
            &&& r.table[rekeyed(q, from, to)] == self.table[q]
        } by {
            if q.starts_with(from) {
                lemma_rebased(q, from, to);
            }
        }
        assert forall|x: PathView| #[trigger] r.table.dom().contains(x) implies {
            &&& self.has(rekeyed(x, to, from))
            &&& rekeyed(rekeyed(x, to, from), from, to) == x
            &&& r.table[x] == self.table[rekeyed(x, to, from)]
        } by {
            if x.starts_with(to) {
                lemma_rebased(x, to, from);
            }
        }
    }

    /// Moving an entry with all below it keeps the state consistent.
    pub proof fn lemma_renamed(self, from: PathView, to: PathView)
        requires
            self.wf(),
            self.rename_result(from, to) is Ok,
            to.clean(),
        ensures
            self.renamed(from, to).wf(),
    {
        let r = self.renamed(from, to);
        let id = self.table[from];
        self.lemma_renamed_keys(from, to);
        assert(self.table.dom().contains(from));
        assert forall|x: PathView| #[trigger] r.table.dom().contains(x) implies x.clean()
            && x.named() && r.nodes.dom().contains(r.table[x]) by {
            let q = rekeyed(x, to, from);
            assert(self.table.dom().contains(q));
            if q.starts_with(from) {
                lemma_rebased(q, from, to);
            }
        }
        assert forall|x: PathView, y: PathView|
            #[trigger] r.table.dom().contains(x) && #[trigger] r.table.dom().contains(y) && x
                != y implies r.table[x] != r.table[y] by {
            assert(self.table.dom().contains(rekeyed(x, to, from)));
            assert(self.table.dom().contains(rekeyed(y, to, from)));
        }
        assert forall|i: usize| #[trigger] r.nodes.dom().contains(i) implies r.nodes[i].handles > 0
            || r.linked(i) by {
            if r.nodes[i].handles == 0 {
                assert(self.nodes.dom().contains(i));
                let q = choose|q: PathView| #[trigger]
                    self.table.dom().contains(q) && self.table[q] == i;
                let x = rekeyed(q, from, to);
                assert(r.table.dom().contains(x) && r.table[x] == i);
            }
        }
        assert(r.fits());
        self.lemma_all_present(to, to.first_depth());
        assert forall|x: PathView, n: int|
            #[trigger] r.table.dom().contains(x) && x.first_depth() <= n < x.names.len()
            implies r.is_dir_at(#[trigger] x.prefix(n)) by {
            let q = rekeyed(x, to, from);
            assert(self.table.dom().contains(q));
            // the ancestor as it was before the move
            let b = if x.starts_with(to) && n >= to.names.len() {
                q.prefix(n - to.names.len() + from.names.len())
            } else {
                x.prefix(n)
            };
            if x.starts_with(to) {
                lemma_rebased(x, to, from);
                lemma_rebased_prefix(q, from, to, n);
                if n >= to.names.len() {
                    assert(self.is_dir_at(b));
                } else {
                    assert(self.is_dir_at(to.prefix(n)));
                    lemma_starts_with_prefix(to, n);
                    if b.starts_with(from) {
                        lemma_starts_with_trans(to, b, from);
                    }
                }
            } else {
                assert(self.is_dir_at(b));
                lemma_starts_with_prefix(x, n);
                if b.starts_with(from) {
                    lemma_starts_with_trans(x, b, from);
                }
            }
            assert(self.table.dom().contains(b));
            assert(rekeyed(b, from, to) == x.prefix(n));
            assert(r.table[x.prefix(n)] == self.table[b]);
            assert(self.nodes.dom().contains(self.table[b]));
        }
    }

    /// Whether a symlink to `src` can be made at `dst`: `src` must be
    /// there and `dst` must not, each with its ancestors in place.
    pub open spec fn symlink_result(self, src: PathView, dst: PathView) -> Result<
        (),
        FloppyError,
    > {
        match self.require_present(src) {
            Err(e) => Err(e),
            Ok(_) => self.create_result(dst),
        }
    }

    /// The file whose contents a copy from `from` to `to` takes: `from`
    /// must lead to a file, and every ancestor of `to` must be there.
    pub open spec fn copy_result(self, from: PathView, to: PathView) -> Result<
        PathView,
        FloppyError,
    > {
        match self.file_at(from) {
            Err(e) => Err(e),
            Ok(q) => match self.write_result(to) {
                Err(e) => Err(e),
                Ok(_) => Ok(q),
            },
        }
    }

    /// The entry whose attributes an operation on `p` changes: `p` must be
    /// there with its ancestors, and symlinks are followed.
    pub open spec fn target_result(self, p: PathView) -> Result<PathView, FloppyError> {
        match self.require_present(p) {
            Err(e) => Err(e),
            Ok(_) => self.resolve(p),
        }
    }

    /// Changing an entry, but not its kind, target or serial number, keeps
    /// the state consistent.
    pub proof fn lemma_with_inode(self, id: usize, inode: InodeView)
        requires
            self.wf(),
            self.live(id),
            inode.wf(),
            inode.serial == self.nodes[id].inode.serial,
            inode.kind == self.nodes[id].inode.kind,
        ensures
            self.with_inode(id, inode).wf(),
    {
        let r = self.with_inode(id, inode);
        assert forall|p: PathView, n: int|
            #[trigger] r.table.dom().contains(p) && p.first_depth() <= n < p.names.len()
            implies r.is_dir_at(#[trigger] p.prefix(n)) by {
            assert(self.table.dom().contains(p));
            assert(self.is_dir_at(p.prefix(n)));
        }
        assert forall|i: usize| #[trigger] r.nodes.dom().contains(i) implies r.nodes[i].handles > 0
            || r.linked(i) by {
            if r.nodes[i].handles == 0 {
                let q = choose|q: PathView| #[trigger]
                    self.table.dom().contains(q) && self.table[q] == i;
                assert(r.table.dom().contains(q) && r.table[q] == i);
            }
        }
    }
}

/// The mathematical model of a set of open options.
pub struct OpenView {
    pub read: bool,
    pub write: bool,
    pub append: bool,
    pub truncate: bool,
    pub create: bool,
    pub create_new: bool,
}

impl OpenView {
    /// Whether the file is opened for writing: asked for as such, or for
    /// appending.
    pub open spec fn writes(self) -> bool {
        self.write || self.append
    }

    /// Whether a missing file is created: asked for as such, or as new.
    pub open spec fn creates(self) -> bool {
        self.create || self.create_new
    }

    /// The options go together: creating and truncating need write access,
    /// and truncating excludes appending.
    pub open spec fn consistent(self) -> bool {
        &&& (self.creates() || self.truncate) ==> self.writes()
        &&& !(self.truncate && self.append)
    }
}

/// Where a seek starts from, and how far it goes.
#[derive(Clone, Copy, Debug, PartialEq, Eq, Structural)]
pub enum SeekFrom {
    Start(u64),
    End(i64),
    Current(i64),
}

/// The contents of a file after `data` has been written at offset `at`: the
/// file is first extended with zeros to `at + data.len()` where it is
/// shorter, then the bytes from `at` on are overwritten.
pub open spec fn written(buffer: Seq<u8>, at: int, data: Seq<u8>) -> Seq<u8> {
    let end = at + data.len();
    let grown = if buffer.len() < end {
        buffer + Seq::new((end - buffer.len()) as nat, |i: int| 0u8)
    } else {
        buffer
    };
    grown.subrange(0, at) + data + grown.subrange(end, grown.len() as int)
}

/// The position that a seek leads to, as a number that may be out of
/// range: `Start` is absolute, `Current` counts from the position, and `End`
/// from the length of the contents but no further than it.
pub open spec fn seek_target(position: u64, len: int, pos: SeekFrom) -> int {
    match pos {
        SeekFrom::Start(n) => n as int,
        SeekFrom::Current(d) => position + d,
        SeekFrom::End(d) => if d > 0 {
            len
        } else {
            len + d
        },
    }
}

/// How many bytes a read at `position` hands out of contents of length
/// `len` into room for `want`: none at or past the end, else as many as
/// are left and fit.
pub open spec fn read_count(len: int, position: u64, want: int) -> int {
    if position >= len {
        0
    } else if want <= len - position {
        want
    } else {
        len - position
    }
}

/// The bytes that a read at `position` hands out of `contents` into room
/// for `want`.
pub open spec fn read_bytes(contents: Seq<u8>, position: u64, want: int) -> Seq<u8> {
    let n = read_count(contents.len() as int, position, want);
    if n == 0 {
        Seq::empty()
    } else {
        contents.subrange(position as int, position + n)
    }
}

impl DiskView {
    /// An open file can point at the entry under `id`: it is stored, and
    /// counted as open.
    pub open spec fn is_open(self, id: usize) -> bool {
        self.live(id) && self.nodes[id].handles > 0
    }

    /// What opening `p` with the options `o` does: `Ok(Some(q))` opens the
    /// file at `q`, which `p` leads to, and `Ok(None)` creates a file at
    /// `p`.
    pub open spec fn open_result(self, o: OpenView, p: PathView) -> Result<
        Option<PathView>,
        FloppyError,
    > {
        if !o.consistent() {
            Err(FloppyError::InvalidInput)
        } else if !self.placeable(p) {
            Err(FloppyError::NotFound)
        } else if self.has(p) {
            if o.create_new {
                Err(FloppyError::AlreadyExists)
            } else {
                match self.resolve(p) {
                    Err(e) => Err(e),
                    Ok(q) => if self.inode_at(q).kind != InodeType::File {
                        Err(FloppyError::InvalidInput)
                    } else if self.nodes[self.table[q]].handles >= usize::MAX {
                        Err(FloppyError::Other)
                    } else {
                        Ok(Some(q))
                    },
                }
            }
        } else if !o.creates() {
            Err(FloppyError::NotFound)
        } else if self.exhausted() {
            Err(FloppyError::Other)
        } else {
            Ok(None)
        }
    }

    /// The state after the last open file of the entry under `id` is
    /// counted out: the entry is dropped unless a path leads to it.
    pub open spec fn closed(self, id: usize) -> DiskView {
        if self.nodes[id].handles == 1 && !self.linked(id) {
            DiskView { nodes: self.nodes.remove(id), ..self }
        } else {
            self.with_handles(id, (self.nodes[id].handles - 1) as nat)
        }
    }

    /// Counting one more open file keeps the state consistent.
    pub proof fn lemma_with_handles(self, id: usize, handles: nat)
        requires
            self.wf(),
            self.live(id),
            handles > 0 || self.linked(id),
        ensures
            self.with_handles(id, handles).wf(),
    {
        let r = self.with_handles(id, handles);
        assert forall|p: PathView, n: int|
            #[trigger] r.table.dom().contains(p) && p.first_depth() <= n < p.names.len()
            implies r.is_dir_at(#[trigger] p.prefix(n)) by {
            assert(self.table.dom().contains(p));
            assert(self.is_dir_at(p.prefix(n)));
        }
        assert forall|i: usize| #[trigger] r.nodes.dom().contains(i) implies r.nodes[i].handles > 0
            || r.linked(i) by {
            if r.nodes[i].handles == 0 {
                let q = choose|q: PathView| #[trigger]
                    self.table.dom().contains(q) && self.table[q] == i;
                assert(r.table.dom().contains(q) && r.table[q] == i);
            }
        }
    }

    /// Counting an open file out keeps the state consistent.
    pub proof fn lemma_closed(self, id: usize)
        requires
            self.wf(),
            self.is_open(id),
        ensures
            self.closed(id).wf(),
    {
        let r = self.closed(id);
        assert forall|p: PathView, n: int|
            #[trigger] r.table.dom().contains(p) && p.first_depth() <= n < p.names.len()
            implies r.is_dir_at(#[trigger] p.prefix(n)) by {
            assert(self.table.dom().contains(p));
            assert(self.is_dir_at(p.prefix(n)));
            assert(self.table.dom().contains(p.prefix(n)));
        }
        if self.nodes[id].handles == 1 && !self.linked(id) {
            assert forall|i: usize| #[trigger] r.nodes.dom().contains(i) implies r.nodes[i].handles
                > 0 || r.linked(i) by {
                if r.nodes[i].handles == 0 {
                    let q = choose|q: PathView| #[trigger]
                        self.table.dom().contains(q) && self.table[q] == i;
                    assert(r.table.dom().contains(q) && r.table[q] == i);
                }
            }
        } else {
            self.lemma_with_handles(id, (self.nodes[id].handles - 1) as nat);
        }
    }
}

impl DiskView {
    /// How many ancestors of `p` with fewer than `n` names the table
    /// lacks.
    pub open spec fn missing_count(self, p: PathView, n: int) -> nat
        decreases n,
    {
        if n <= p.first_depth() {
            0
        } else {
            self.missing_count(p, n - 1) + if self.has(p.prefix(n - 1)) {
                0nat
            } else {
                1nat
            }
        }
    }

    /// `k` more entries can be created before the serial numbers or the
    /// ids run out.
    pub open spec fn room(self, k: int) -> bool {
        self.next_serial + k <= u64::MAX && self.next_id + k <= usize::MAX
    }

    /// The outermost ancestor of `p` that is not there as a directory is
    /// there as something else, so that no directory can be made of it.
    pub open spec fn blocked(self, p: PathView) -> bool {
        self.ancestor_missing(p) is Some && self.has(self.ancestor_missing(p)->0)
    }

    /// How many entries can still be created before the serial numbers or
    /// the ids run out.
    pub open spec fn capacity(self) -> int {
        if u64::MAX - self.next_serial <= usize::MAX - self.next_id {
            u64::MAX - self.next_serial
        } else {
            usize::MAX - self.next_id
        }
    }

    /// How many directories are missing on the way to `p`, `p` included.
    pub open spec fn dirs_wanted(self, p: PathView) -> int {
        self.missing_count(p, p.names.len() as int) + if self.has(p) {
            0int
        } else {
            1int
        }
    }

    /// Whether `p` can be created together with the ancestors that are
    /// missing. The ancestors come first, outermost first. Where something
    /// that is no directory stands in the way, or `p` itself is there
    /// already, that is `AlreadyExists`.
    pub open spec fn create_dir_all_result(self, p: PathView) -> Result<(), FloppyError> {
        if !p.named() {
            Err(FloppyError::NotFound)
        } else if self.blocked(p) || self.has(p) {
            Err(FloppyError::AlreadyExists)
        } else if self.dirs_wanted(p) > self.capacity() {
            Err(FloppyError::Other)
        } else {
            Ok(())
        }
    }

    /// How many directories a creation of `p` with its missing ancestors
    /// adds: all that are wanted, or as many as there are serial numbers
    /// and ids left, or none where it is refused at once.
    pub open spec fn dirs_created(self, p: PathView) -> int {
        if !p.named() || self.blocked(p) || self.has(p) {
            0
        } else if self.dirs_wanted(p) <= self.capacity() {
            self.dirs_wanted(p)
        } else {
            self.capacity()
        }
    }

    /// The id `id` went to a path that `new` has and this state has not.
    pub open spec fn added_under(self, new: DiskView, id: usize) -> bool {
        exists|q: PathView|
            #[trigger] new.table.dom().contains(q) && !self.table.dom().contains(q)
                && new.table[q] == id
    }

    /// `new` is this state with new, empty directories added at `p` or at
    /// ancestors of `p`, and nothing else changed: every entry that was
    /// there is as it was, outer directories were added before inner ones,
    /// every id that was used went to one of the directories added, and as
    /// many serial numbers as ids were used.
    pub open spec fn grown(self, new: DiskView, p: PathView) -> bool {
        &&& forall|q: PathView| #[trigger]
            self.table.dom().contains(q) ==> new.table.dom().contains(q) && new.table[q]
                == self.table[q]
        &&& forall|id: usize| #[trigger]
            self.nodes.dom().contains(id) ==> new.nodes.dom().contains(id) && new.nodes[id]
                == self.nodes[id]
        &&& forall|q: PathView|
            #[trigger] new.table.dom().contains(q) && !self.table.dom().contains(q) ==> {
                &&& q == p || p.has_ancestor(q)
                &&& self.next_id <= new.table[q] < new.next_id
                &&& new.nodes[new.table[q]].handles == 0
                &&& self.next_serial <= new.inode_at(q).serial < new.next_serial
                &&& new.inode_at(q).is_new(
                    new.inode_at(q).serial,
                    InodeType::Dir,
                    0o755,
                    rendered(q),
                    Seq::empty(),
                    None,
                )
            }
        &&& forall|a: PathView, b: PathView|
            #[trigger] new.table.dom().contains(a) && #[trigger] new.table.dom().contains(b)
                && !self.table.dom().contains(a) && !self.table.dom().contains(b)
                && a.names.len() < b.names.len() ==> new.inode_at(a).serial < new.inode_at(
                b,
            ).serial
        &&& forall|id: usize|
            self.next_id <= id < new.next_id ==> #[trigger] self.added_under(new, id)
        &&& new.next_serial - self.next_serial == new.next_id - self.next_id
        &&& new.next_id >= self.next_id
    }

    /// Where the table has no entry at `p`, adding one there changes
    /// nothing else.
    pub proof fn lemma_with_new_absent(self, p: PathView, inode: InodeView)
        requires
            self.fits(),
            !self.has(p),
        ensures
            self.with_new(p, inode).table == self.table.insert(p, self.next_id),
            self.with_new(p, inode).nodes == self.nodes.insert(
                self.next_id,
                NodeView { inode, handles: 0 },
            ),
    {
        self.lemma_unlinked(p);
        assert(self.table.remove(p) =~= self.table);
    }

    /// One more directory, deeper than those added so far, keeps the state
    /// grown from where it started.
    pub proof fn lemma_grown_step(self, mid: DiskView, new: DiskView, p: PathView, a: PathView)
        requires
            self.fits(),
            self.grown(mid, p),
            mid.wf(),
            mid.create_result(a) is Ok,
            mid.created(new, a, InodeType::Dir, 0o755, Seq::empty(), None),
            a == p || p.has_ancestor(a),
            forall|q: PathView|
                #[trigger] mid.table.dom().contains(q) && !self.table.dom().contains(q)
                    ==> q.names.len() < a.names.len(),
        ensures
            self.grown(new, p),
    {
        let inode = new.inode_at(a);
        mid.lemma_with_new_absent(a, inode);
        mid.lemma_with_new(a, inode);
        assert(new.table.dom().contains(a));
        assert(!self.table.dom().contains(a));
        assert forall|q: PathView| #[trigger]
            self.table.dom().contains(q) implies new.table.dom().contains(q) && new.table[q]
            == self.table[q] by {
            assert(mid.table.dom().contains(q));
        }
        assert forall|id: usize| #[trigger]
            self.nodes.dom().contains(id) implies new.nodes.dom().contains(id) && new.nodes[id]
            == self.nodes[id] by {
            assert(mid.nodes.dom().contains(id));
        }
        assert forall|q: PathView|
            #[trigger] new.table.dom().contains(q) && !self.table.dom().contains(q) implies {
            &&& q == p || p.has_ancestor(q)
            &&& self.next_id <= new.table[q] < new.next_id
            &&& new.nodes[new.table[q]].handles == 0
            &&& self.next_serial <= new.inode_at(q).serial < new.next_serial
            &&& new.inode_at(q).is_new(
                new.inode_at(q).serial,
                InodeType::Dir,
                0o755,
                rendered(q),
                Seq::empty(),
                None,
            )
        } by {
            if q != a {
                assert(mid.table.dom().contains(q));
                assert(mid.nodes.dom().contains(mid.table[q]));
            }
        }
        assert forall|id: usize|
            self.next_id <= id < new.next_id implies #[trigger] self.added_under(new, id) by {
            if id == mid.next_id {
                assert(new.table.dom().contains(a) && !self.table.dom().contains(a)
                    && new.table[a] == id);
            } else {
                assert(self.added_under(mid, id));
                let q = choose|q: PathView|
                    #[trigger] mid.table.dom().contains(q) && !self.table.dom().contains(q)
                        && mid.table[q] == id;
                assert(new.table.dom().contains(q) && !self.table.dom().contains(q)
                    && new.table[q] == id);
            }
        }
        assert forall|x: PathView, y: PathView|
            #[trigger] new.table.dom().contains(x) && #[trigger] new.table.dom().contains(y)
                && !self.table.dom().contains(x) && !self.table.dom().contains(y)
                && x.names.len() < y.names.len() implies new.inode_at(x).serial < new.inode_at(
            y,
        ).serial by {
            if x != a {
                assert(mid.table.dom().contains(x));
                assert(mid.nodes.dom().contains(mid.table[x]));
            }
            if y != a {
                assert(mid.table.dom().contains(y));
                assert(mid.nodes.dom().contains(mid.table[y]));
            }
        }
    }

    /// Where the ancestors of `p` from `j` names on are directories up to
    /// the one with `n` names, which is none, that one is the outermost
    /// ancestor missing.
    pub proof fn lemma_first_missing(self, p: PathView, j: int, n: int)
        requires
            0 <= j <= n < p.names.len(),
            forall|m: int| j <= m < n ==> self.is_dir_at(#[trigger] p.prefix(m)),
            !self.is_dir_at(p.prefix(n)),
        ensures
            self.missing_from(p, j) == Some(p.prefix(n)),
        decreases n - j,
    {
        if j < n {
            assert(self.is_dir_at(p.prefix(j)));
            self.lemma_first_missing(p, j + 1, n);
        }
    }

    /// Where each ancestor of `p` is a directory or not there at all, the
    /// outermost ancestor missing, if there is one, is not there.
    pub proof fn lemma_not_blocked(self, p: PathView, j: int)
        requires
            0 <= j,
            forall|m: int|
                j <= m < p.names.len() ==> self.is_dir_at(#[trigger] p.prefix(m)) || !self.has(
                    p.prefix(m),
                ),
        ensures
            self.missing_from(p, j) is None || !self.has(self.missing_from(p, j)->0),
        decreases p.names.len() - j,
    {
        if j < p.names.len() {
            assert(self.is_dir_at(p.prefix(j)) || !self.has(p.prefix(j)));
            self.lemma_not_blocked(p, j + 1);
        }
    }

    /// Where an ancestor of `p` has no entry, nothing deeper on the way to
    /// `p` has one, and neither has `p`.
    pub proof fn lemma_absent_below(self, p: PathView, n: int)
        requires
            self.wf(),
            p.first_depth() <= n < p.names.len(),
            !self.has(p.prefix(n)),
        ensures
            !self.has(p),
            forall|m: int| n <= m <= p.names.len() ==> !self.has(#[trigger] p.prefix(m)),
    {
        assert forall|m: int| n <= m <= p.names.len() implies !self.has(#[trigger] p.prefix(m)) by {
            if m > n && self.has(p.prefix(m)) {
                lemma_prefix(p, n, m);
                assert(self.table.dom().contains(p.prefix(m)));
                assert(self.is_dir_at(p.prefix(m).prefix(n)));
            }
        }
        lemma_prefix(p, n, p.names.len() as int);
        assert(!self.has(p.prefix(p.names.len() as int)));
    }

    /// Where every ancestor of `p` is there, none is counted missing; and
    /// the count goes up by one for each ancestor that is not there.
    pub proof fn lemma_missing_count_zero(self, p: PathView, n: int)
        requires
            forall|m: int| p.first_depth() <= m < n ==> self.has(#[trigger] p.prefix(m)),
        ensures
            self.missing_count(p, n) == 0,
        decreases n,
    {
        if n > p.first_depth() {
            assert(self.has(p.prefix(n - 1)));
            self.lemma_missing_count_zero(p, n - 1);
        }
    }

    /// The count of missing ancestors grows with the depth.
    pub proof fn lemma_missing_count_grows(self, p: PathView, m: int, n: int)
        requires
            m <= n,
        ensures
            self.missing_count(p, m) <= self.missing_count(p, n),
        decreases n - m,
    {
        if m < n {
            self.lemma_missing_count_grows(p, m, n - 1);
        }
    }

    /// A path whose ancestors from `n` names on are all there has none
    /// missing from there on.
    pub proof fn lemma_none_missing(self, p: PathView, n: int)
        requires
            forall|m: int| n <= m < p.names.len() ==> self.is_dir_at(#[trigger] p.prefix(m)),
        ensures
            self.missing_from(p, n) is None,
        decreases p.names.len() - n,
    {
        if n < p.names.len() {
            self.lemma_none_missing(p, n + 1);
        }
    }

    /// A path with no ancestor missing has all of them there.
    pub proof fn lemma_all_present(self, p: PathView, n: int)
        requires
            self.missing_from(p, n) is None,
            0 <= n,
        ensures
            forall|m: int| n <= m < p.names.len() ==> self.is_dir_at(#[trigger] p.prefix(m)),
        decreases p.names.len() - n,
    {
        if n < p.names.len() {
            self.lemma_all_present(p, n + 1);
        }
    }

}


impl DiskView {
    /// Putting an entry where one can stand, and where no directory is,
    /// keeps the state consistent.
    pub proof fn lemma_with_new_closed(self, p: PathView, inode: InodeView)
        requires
            self.wf(),
            inode.wf(),
            inode.serial == self.next_serial,
            !self.exhausted(),
            self.placeable(p),
            p.clean(),
            !self.is_dir_at(p),
        ensures
            self.with_new(p, inode).wf(),
    {
        let new = self.with_new(p, inode);
        self.lemma_with_new(p, inode);
        self.lemma_all_present(p, p.first_depth());
        assert forall|q: PathView, n: int|
            #[trigger] new.table.dom().contains(q) && q.first_depth() <= n < q.names.len()
            implies new.is_dir_at(#[trigger] q.prefix(n)) by {
            let a = q.prefix(n);
            assert(new.has(q));
            if q == p {
                assert(self.is_dir_at(a));
            } else {
                assert(self.has(q));
                assert(self.table.dom().contains(q));
                assert(self.is_dir_at(a));
            }
            assert(a != p);
            assert(new.has(a) == self.has(a));
            assert(new.inode_at(a) == self.inode_at(a));
        }
    }

    /// Taking away an entry that has nothing below it keeps the state
    /// consistent.
    pub proof fn lemma_unlinked_closed(self, p: PathView)
        requires
            self.wf(),
            self.nothing_below(p),
        ensures
            self.unlinked(p).wf(),
    {
        let new = self.unlinked(p);
        self.lemma_unlinked(p);
        assert forall|q: PathView, n: int|
            #[trigger] new.table.dom().contains(q) && q.first_depth() <= n < q.names.len()
            implies new.is_dir_at(#[trigger] q.prefix(n)) by {
            let a = q.prefix(n);
            assert(new.has(q));
            assert(self.table.dom().contains(q));
            assert(self.is_dir_at(a));
            lemma_starts_with_prefix(q, n);
            assert(a != p);
            assert(new.has(a));
            assert(new.inode_at(a) == self.inode_at(a));
        }
    }

    /// Taking away an entry with all below it keeps the state consistent.
    pub proof fn lemma_unlinked_under_closed(self, p: PathView)
        requires
            self.wf(),
        ensures
            self.unlinked_under(p).wf(),
    {
        let keep = |q: PathView| !q.starts_with(p);
        let new = self.retaining(keep);
        self.lemma_retaining_ext(|q: PathView| !q.starts_with(p), keep);
        self.lemma_retaining_wf(keep);
        assert forall|q: PathView, n: int|
            #[trigger] new.table.dom().contains(q) && q.first_depth() <= n < q.names.len()
            implies new.is_dir_at(#[trigger] q.prefix(n)) by {
            let a = q.prefix(n);
            assert(new.has(q));
            assert(self.table.dom().contains(q));
            assert(self.is_dir_at(a));
            lemma_starts_with_prefix(q, n);
            if a.starts_with(p) {
                lemma_starts_with_trans(q, a, p);
            }
            assert(new.has(a));
            assert(new.inode_at(a) == self.inode_at(a));
        }
    }

    /// An entry that is no directory has nothing below it.
    pub proof fn lemma_leaf_nothing_below(self, p: PathView)
        requires
            self.wf(),
            self.has(p),
            self.inode_at(p).kind != InodeType::Dir,
        ensures
            self.nothing_below(p),
    {
        assert(self.table.dom().contains(p));
        assert forall|q: PathView| #[trigger] self.table.dom().contains(q) && q.starts_with(
            p,
        ) implies q == p by {
            if q != p {
                lemma_starts_with_is_prefix(q, p);
                assert(self.is_dir_at(q.prefix(p.names.len() as int)));
            }
        }
    }

    /// An entry without children has nothing below it.
    pub proof fn lemma_no_children_nothing_below(self, p: PathView)
        requires
            self.wf(),
            self.has(p),
            !self.has_children(p),
        ensures
            self.nothing_below(p),
    {
        assert(self.table.dom().contains(p));
        assert forall|q: PathView| #[trigger] self.table.dom().contains(q) && q.starts_with(
            p,
        ) implies q == p by {
            if q != p {
                lemma_starts_with_is_prefix(q, p);
                let n = p.names.len() as int;
                let c = q.prefix(n + 1);
                lemma_prefix(q, n, n + 1);
                assert(c.is_child_of(p));
                if n + 1 < q.names.len() {
                    assert(self.is_dir_at(c));
                } else {
                    lemma_prefix(q, n + 1, n + 1);
                }
                assert(self.table.dom().contains(c));
            }
        }
    }
}

} // verus!
