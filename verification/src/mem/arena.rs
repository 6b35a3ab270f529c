//! The store of entries: each entry lives in a slot of its own, under an id
//! that is never given out twice, so that open files and the entry table
//! can both point at it.

use super::inode::Inode;
use super::model::NodeView;
use vstd::prelude::*;

verus! {

/// A stored entry.
#[derive(Debug)]
pub struct Node {
    inode: Inode,
    handles: usize,
}

impl View for Node {
    type V = NodeView;

    closed spec fn view(&self) -> NodeView {
        NodeView { inode: self.inode@, handles: self.handles as nat }
    }
}

/// The entries of a filesystem, by id.
#[derive(Debug)]
pub struct NodeArena {
    slots: Vec<Option<Node>>,
}

impl View for NodeArena {
    type V = Map<usize, NodeView>;

    closed spec fn view(&self) -> Map<usize, NodeView> {
        Map::new(
            |id: usize| id < self.slots.len() && self.slots[id as int] is Some,
            |id: usize| self.slots[id as int]->0@,
        )
    }
}

impl NodeArena {
    /// The id that the next stored entry gets.
    pub closed spec fn next_id(&self) -> usize {
        self.slots.len()
    }

    /// An arena without entries.
    pub fn new() -> (r: NodeArena)
        ensures
            r@ == Map::<usize, NodeView>::empty(),
            r.next_id() == 0,
    {
        let r = NodeArena { slots: Vec::new() };
        r
    }

    /// The id that the next stored entry gets.
    pub fn next(&self) -> (r: usize)
        ensures
            r == self.next_id(),
    {
        self.slots.len()
    }

    /// Stores an entry that no open file points at, and returns its id.
    pub fn store(&mut self, inode: Inode) -> (id: usize)
        ensures
            id == old(self).next_id(),
            final(self).next_id() == id + 1,
            !old(self)@.dom().contains(id),
            final(self)@ == old(self)@.insert(id, NodeView { inode: inode@, handles: 0 }),
    {
        let id = self.slots.len();
        self.slots.push(Some(Node { inode, handles: 0 }));
        id
    }

    /// Whether an entry is stored under `id`.
    pub fn has(&self, id: usize) -> (r: bool)
        ensures
            r == self@.dom().contains(id),
    {
        id < self.slots.len() && self.slots[id].is_some()
    }

    /// The entry stored under `id`.
    pub fn inode(&self, id: usize) -> (r: &Inode)
        requires
            self@.dom().contains(id),
        ensures
            r@ == self@[id].inode,
    {
        match &self.slots[id] {
            Some(n) => &n.inode,
            None => vstd::pervasive::unreached(),
        }
    }

    /// The entry stored under `id`, to change it.
    pub fn inode_mut(&mut self, id: usize) -> (r: &mut Inode)
        requires
            old(self)@.dom().contains(id),
        ensures
            r@ == old(self)@[id].inode,
            final(self).next_id() == old(self).next_id(),
            final(self)@ == old(self)@.insert(
                id,
                NodeView { inode: final(r)@, handles: old(self)@[id].handles },
            ),
    {
        match &mut self.slots[id] {
            Some(n) => &mut n.inode,
            None => vstd::pervasive::unreached(),
        }
    }

    /// The number of open files that point at the entry under `id`.
    pub fn handles(&self, id: usize) -> (r: usize)
        requires
            self@.dom().contains(id),
        ensures
            r == self@[id].handles,
    {
        match &self.slots[id] {
            Some(n) => n.handles,
            None => vstd::pervasive::unreached(),
        }
    }

    /// Records a new count of open files for the entry under `id`.
    pub fn set_handles(&mut self, id: usize, handles: usize)
        requires
            old(self)@.dom().contains(id),
        ensures
            final(self).next_id() == old(self).next_id(),
            final(self)@ == old(self)@.insert(
                id,
                NodeView { inode: old(self)@[id].inode, handles: handles as nat },
            ),
    {
        match &mut self.slots[id] {
            Some(n) => {
                n.handles = handles;
            },
            None => {},
        }
    }

    /// Drops the entry under `id`. The id is not used again.
    pub fn free(&mut self, id: usize)
        requires
            old(self)@.dom().contains(id),
        ensures
            final(self).next_id() == old(self).next_id(),
            final(self)@ == old(self)@.remove(id),
    {
        self.slots[id] = None;
    }
}

} // verus!
