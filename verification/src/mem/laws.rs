//! Laws of the in-memory filesystem: what holds across operations, proved
//! over the model.

use super::inode::{InodeType, InodeView};
use super::model::{rekeyed, DiskView};
use crate::error::FloppyError;
use crate::path::{law_render_round_trip, normalized, rendered, PathView};
use vstd::prelude::*;

verus! {

/// Reading a path that has no entry fails with `NotFound`.
pub proof fn law_read_absent(disk: DiskView, p: PathView)
    requires
        !disk.has(p),
    ensures
        disk.read_result(p) == Err::<Seq<u8>, FloppyError>(FloppyError::NotFound),
{
}

/// In a consistent filesystem every ancestor of a path that has an entry
/// has one too, and is a directory.
pub proof fn law_ancestors_are_directories(disk: DiskView, p: PathView, a: PathView)
    requires
        disk.wf(),
        disk.has(p),
        p.has_ancestor(a),
    ensures
        disk.is_dir_at(a),
{
    let n = choose|n: int| p.first_depth() <= n < p.names.len() && a == p.prefix(n);
    assert(disk.table.dom().contains(p));
    assert(disk.is_dir_at(p.prefix(n)));
}

/// A path that had no ancestor missing has none missing after a new entry
/// was put where no directory was.
pub proof fn lemma_new_entry_keeps_ancestors(
    old: DiskView,
    at: PathView,
    inode: InodeView,
    p: PathView,
)
    requires
        old.wf(),
        inode.wf(),
        inode.serial == old.next_serial,
        !old.exhausted(),
        !old.is_dir_at(at),
        old.ancestor_missing(p) is None,
    ensures
        old.with_new(at, inode).ancestor_missing(p) is None,
{
    let new = old.with_new(at, inode);
    old.lemma_with_new(at, inode);
    old.lemma_all_present(p, p.first_depth());
    assert forall|m: int| p.first_depth() <= m < p.names.len() implies new.is_dir_at(
        #[trigger] p.prefix(m),
    ) by {
        let a = p.prefix(m);
        assert(old.is_dir_at(a));
        assert(a != at);
        assert(new.has(a) == old.has(a));
        assert(new.inode_at(a) == old.inode_at(a));
    }
    new.lemma_none_missing(p, p.first_depth());
}

/// A file that has just been written reads back as exactly the bytes
/// written.
pub proof fn law_write_then_read(old: DiskView, new: DiskView, p: PathView, data: Seq<u8>)
    requires
        old.wf(),
        old.write_result(p) is Ok,
        old.created(new, p, InodeType::File, 0o644, data, None),
    ensures
        new.read_result(p) == Ok::<Seq<u8>, FloppyError>(data),
{
    let inode = new.inode_at(p);
    old.lemma_with_new(p, inode);
    lemma_new_entry_keeps_ancestors(old, p, inode, p);
}

/// Writing at one path leaves what a file at another path reads as.
pub proof fn law_write_elsewhere(
    old: DiskView,
    new: DiskView,
    p: PathView,
    q: PathView,
    data: Seq<u8>,
)
    requires
        old.wf(),
        old.write_result(q) is Ok,
        old.created(new, q, InodeType::File, 0o644, data, None),
        p != q,
        old.has(p),
        old.inode_at(p).kind == InodeType::File,
        old.read_result(p) is Ok,
    ensures
        new.read_result(p) == old.read_result(p),
{
    let inode = new.inode_at(q);
    old.lemma_with_new(q, inode);
    lemma_new_entry_keeps_ancestors(old, q, inode, p);
    assert(new.inode_at(p) == old.inode_at(p));
}

/// A symlink that has just been made reads back as the target it was
/// given, letter for letter.
pub proof fn law_symlink_then_read_link(
    old: DiskView,
    new: DiskView,
    src: PathView,
    dst: PathView,
    target: Seq<char>,
)
    requires
        old.wf(),
        old.symlink_result(src, dst) is Ok,
        old.created(new, dst, InodeType::Symlink, 0o777, Seq::empty(), Some(target)),
    ensures
        new.read_link_result(dst) == Ok::<Seq<char>, FloppyError>(target),
{
    let inode = new.inode_at(dst);
    old.lemma_with_new(dst, inode);
    lemma_new_entry_keeps_ancestors(old, dst, inode, dst);
}

/// Once a path has been removed with all below it, asking for the
/// attributes of it or of anything below it fails with `NotFound`.
pub proof fn law_removed_tree_is_gone(old: DiskView, p: PathView, q: PathView)
    requires
        old.wf(),
        q.starts_with(p),
    ensures
        !old.unlinked_under(p).has(q),
        old.unlinked_under(p).metadata_result(q) == Err::<PathView, FloppyError>(
            FloppyError::NotFound,
        ),
        old.unlinked_under(p).require_present(q) == Err::<(), FloppyError>(FloppyError::NotFound),
{
}

/// A rename moves the entry with all below it in one step. Each path that
/// started with `from` starts with `to` instead and leads to the entry it
/// led to; every other path leads to what it led to; nothing is left at or
/// below `from`; every entry keeps its contents, its kind and its open
/// files; and the filesystem is consistent as before.
pub proof fn law_rename_moves(old: DiskView, from: PathView, to: PathView)
    requires
        old.wf(),
        old.rename_result(from, to) is Ok,
        to.clean(),
    ensures
        old.renamed(from, to).wf(),
        old.has(from) && !old.has(to),
        old.renamed(from, to).has(to) && old.renamed(from, to).table[to] == old.table[from],
        forall|q: PathView| #[trigger]
            old.table.dom().contains(q) ==> {
                &&& old.renamed(from, to).has(rekeyed(q, from, to))
                &&& old.renamed(from, to).table[rekeyed(q, from, to)] == old.table[q]
            },
        forall|x: PathView| #[trigger]
            old.renamed(from, to).table.dom().contains(x) ==> old.has(rekeyed(x, to, from)),
        forall|x: PathView| x.starts_with(from) ==> !#[trigger] old.renamed(from, to).has(x),
        forall|id: usize| #[trigger]
            old.nodes.dom().contains(id) ==> {
                &&& old.renamed(from, to).nodes.dom().contains(id)
                &&& old.renamed(from, to).nodes[id].inode.buffer == old.nodes[id].inode.buffer
                &&& old.renamed(from, to).nodes[id].inode.kind == old.nodes[id].inode.kind
                &&& old.renamed(from, to).nodes[id].handles == old.nodes[id].handles
            },
{
    let new = old.renamed(from, to);
    old.lemma_renamed(from, to);
    old.lemma_renamed_keys(from, to);
    assert(old.table.dom().contains(from));
    assert(rekeyed(from, from, to) == to) by {
        assert(from.names.take(from.names.len() as int) =~= from.names);
        crate::path::lemma_rebased(from, from, to);
    }
    assert forall|x: PathView| x.starts_with(from) implies !#[trigger] new.has(x) by {
        if new.has(x) {
            // then `x` starts with `to` as well, and one of the two starts
            // with the other
            let f = from.names.len() as int;
            let t = to.names.len() as int;
            if t >= f {
                assert(to.names.take(f) =~= x.names.take(t).take(f));
                assert(x.names.take(t).take(f) =~= x.names.take(f));
            } else {
                assert(from.names.take(t) =~= x.names.take(f).take(t));
                assert(x.names.take(f).take(t) =~= x.names.take(t));
                assert(from.starts_with(to));
            }
        }
    }
}

/// The text of a path that has an entry leads back to that entry: it
/// normalises to the path.
pub proof fn law_text_leads_back(disk: DiskView, p: PathView)
    requires
        disk.wf(),
        disk.has(p),
    ensures
        normalized(rendered(p)) == p,
{
    law_render_round_trip(p);
}

/// The canonical form of a path is its own canonical form, and its text
/// leads back to it.
pub proof fn law_canonicalize_idempotent(disk: DiskView, p: PathView)
    requires
        disk.wf(),
        p.clean(),
        disk.canonicalize_result(p) is Ok,
    ensures
        disk.canonicalize_result(disk.canonicalize_result(p)->Ok_0) == disk.canonicalize_result(p),
        normalized(rendered(disk.canonicalize_result(p)->Ok_0)) == disk.canonicalize_result(
            p,
        )->Ok_0,
{
    let q = disk.canonicalize_result(p)->Ok_0;
    if disk.has(p) {
        disk.lemma_resolve_has(p);
    }
    law_render_round_trip(q);
}

/// Every directory that a recursive creation has added can be asked for
/// its attributes, and is a directory.
pub proof fn law_created_directories_are_there(
    old: DiskView,
    new: DiskView,
    p: PathView,
    q: PathView,
)
    requires
        old.grown(new, p),
        new.wf(),
        new.has(q),
        !old.has(q),
    ensures
        new.metadata_result(q) == Ok::<PathView, FloppyError>(q),
        new.inode_at(q).kind == InodeType::Dir,
{
    assert(new.table.dom().contains(q));
    assert forall|m: int| q.first_depth() <= m < q.names.len() implies new.is_dir_at(
        #[trigger] q.prefix(m),
    ) by {}
    new.lemma_none_missing(q, q.first_depth());
}

} // verus!
