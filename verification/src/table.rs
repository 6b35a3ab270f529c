//! The entry table: an ordered map from normalised paths to node ids, kept
//! as a vector sorted by path.

use crate::path::{
    law_path_order_strict, lemma_path_lt_transitive, path_lt, FloppyPath, PathView, Sort,
};
use vstd::prelude::*;

verus! {

/// The keys come in strictly increasing order.
pub open spec fn sorted(e: Seq<(PathView, usize)>) -> bool {
    forall|i: int, j: int| 0 <= i < j < e.len() ==> path_lt(#[trigger] e[i].0, #[trigger] e[j].0)
}

/// `p` is one of the keys.
pub open spec fn has_key(e: Seq<(PathView, usize)>, p: PathView) -> bool {
    exists|i: int| 0 <= i < e.len() && #[trigger] e[i].0 == p
}

/// The map that a sequence of pairs stands for.
pub open spec fn entries_map(e: Seq<(PathView, usize)>) -> Map<PathView, usize> {
    Map::new(
        |p: PathView| has_key(e, p),
        |p: PathView| e[choose|i: int| 0 <= i < e.len() && #[trigger] e[i].0 == p].1,
    )
}

/// Putting a pair where its key belongs in the order adds it to the map.
pub proof fn lemma_insert_at(e: Seq<(PathView, usize)>, k: int, p: PathView, node: usize)
    requires
        sorted(e),
        0 <= k <= e.len(),
        forall|j: int| 0 <= j < k ==> path_lt(#[trigger] e[j].0, p),
        forall|j: int| k <= j < e.len() ==> path_lt(p, #[trigger] e[j].0),
    ensures
        sorted(e.insert(k, (p, node))),
        entries_map(e.insert(k, (p, node))) == entries_map(e).insert(p, node),
{
    let f = e.insert(k, (p, node));
    assert forall|q: PathView| #[trigger]
        entries_map(f).dom().contains(q) == entries_map(e).insert(p, node).dom().contains(
            q,
        ) by {
        if q == p {
            assert(f[k].0 == q);
        } else if has_key(e, q) {
            let i = choose|i: int| 0 <= i < e.len() && #[trigger] e[i].0 == q;
            if i < k {
                assert(f[i].0 == q);
            } else {
                assert(f[i + 1].0 == q);
            }
        }
    }
}

/// Replacing the node of a pair replaces it in the map.
pub proof fn lemma_update_at(e: Seq<(PathView, usize)>, k: int, node: usize)
    requires
        sorted(e),
        0 <= k < e.len(),
    ensures
        sorted(e.update(k, (e[k].0, node))),
        entries_map(e.update(k, (e[k].0, node))) == entries_map(e).insert(e[k].0, node),
{
    let p = e[k].0;
    let f = e.update(k, (p, node));
    assert forall|q: PathView| #[trigger]
        entries_map(f).dom().contains(q) == entries_map(e).insert(p, node).dom().contains(
            q,
        ) by {
        if q == p {
            assert(f[k].0 == q);
        } else if has_key(e, q) {
            let i = choose|i: int| 0 <= i < e.len() && #[trigger] e[i].0 == q;
            assert(f[i].0 == q);
        }
    }
}

/// Taking a pair out takes its key out of the map.
pub proof fn lemma_remove_at(e: Seq<(PathView, usize)>, k: int)
    requires
        sorted(e),
        0 <= k < e.len(),
    ensures
        sorted(e.remove(k)),
        entries_map(e.remove(k)) == entries_map(e).remove(e[k].0),
{
    let p = e[k].0;
    let f = e.remove(k);
    assert forall|q: PathView| #[trigger]
        entries_map(f).dom().contains(q) == entries_map(e).remove(p).dom().contains(q) by {
        if q != p && has_key(e, q) {
            let i = choose|i: int| 0 <= i < e.len() && #[trigger] e[i].0 == q;
            if i < k {
                assert(f[i].0 == q);
            } else {
                assert(f[i - 1].0 == q);
            }
        }
    }
}

/// One pair of the table.
#[derive(Debug)]
pub struct Slot {
    path: FloppyPath,
    node: usize,
}

/// An ordered map from paths to node ids.
#[derive(Debug)]
pub struct PathTable {
    slots: Vec<Slot>,
}

impl View for PathTable {
    type V = Map<PathView, usize>;

    closed spec fn view(&self) -> Map<PathView, usize> {
        entries_map(self.entries())
    }
}

impl PathTable {
    /// The pairs of the table, in the order it keeps them.
    pub closed spec fn entries(&self) -> Seq<(PathView, usize)> {
        self.slots@.map_values(|s: Slot| (s.path@, s.node))
    }

    /// The table is sorted by path.
    pub closed spec fn wf(&self) -> bool {
        sorted(self.entries())
    }

    /// What a well-formed table is, in terms of its pairs.
    pub proof fn lemma_wf(&self)
        requires
            self.wf(),
        ensures
            sorted(self.entries()),
            self@ == entries_map(self.entries()),
    {
    }

    /// The map of a well-formed table holds exactly the pairs of its
    /// sequence.
    pub proof fn lemma_entries(&self)
        requires
            self.wf(),
        ensures
            forall|i: int|
                0 <= i < self.entries().len() ==> self@.dom().contains(
                    #[trigger] self.entries()[i].0,
                ) && self@[self.entries()[i].0] == self.entries()[i].1,
            forall|p: PathView| #[trigger] self@.dom().contains(p) ==> has_key(self.entries(), p),
    {
    }

    /// No path occurs twice among the pairs of a well-formed table.
    pub proof fn lemma_keys_distinct(&self)
        requires
            self.wf(),
        ensures
            forall|i: int, j: int|
                0 <= i < self.entries().len() && 0 <= j < self.entries().len() && i != j ==> (
                #[trigger] self.entries()[i]).0 != (#[trigger] self.entries()[j]).0,
    {
        assert forall|i: int, j: int|
            0 <= i < self.entries().len() && 0 <= j < self.entries().len() && i != j implies (
        #[trigger] self.entries()[i]).0 != (#[trigger] self.entries()[j]).0 by {
            law_path_order_strict(self.entries()[i].0, self.entries()[j].0);
            if i < j {
                assert(path_lt(self.entries()[i].0, self.entries()[j].0));
            } else {
                assert(path_lt(self.entries()[j].0, self.entries()[i].0));
            }
        }
    }

    /// A table without pairs.
    pub fn new() -> (r: PathTable)
        ensures
            r.wf(),
            r@ == Map::<PathView, usize>::empty(),
            r.entries() == Seq::<(PathView, usize)>::empty(),
    {
        let r = PathTable { slots: Vec::new() };
        r
    }

    /// The number of pairs.
    pub fn len(&self) -> (r: usize)
        ensures
            r == self.entries().len(),
    {
        self.slots.len()
    }

    /// The path of the pair at position `i`.
    pub fn path_at(&self, i: usize) -> (r: &FloppyPath)
        requires
            i < self.entries().len(),
        ensures
            r@ == self.entries()[i as int].0,
    {
        &self.slots[i].path
    }

    /// The node of the pair at position `i`.
    pub fn node_at(&self, i: usize) -> (r: usize)
        requires
            i < self.entries().len(),
        ensures
            r == self.entries()[i as int].1,
    {
        self.slots[i].node
    }

    /// The position of the first pair whose path does not come before `p`,
    /// and whether that pair's path is `p`.
    fn search(&self, p: &FloppyPath) -> (r: (usize, bool))
        requires
            self.wf(),
        ensures
            r.0 <= self.entries().len(),
            forall|j: int| 0 <= j < r.0 ==> path_lt(#[trigger] self.entries()[j].0, p@),
            r.1 ==> r.0 < self.entries().len() && self.entries()[r.0 as int].0 == p@,
            !r.1 ==> forall|j: int|
                r.0 <= j < self.entries().len() ==> path_lt(p@, #[trigger] self.entries()[j].0),
            r.1 == self@.dom().contains(p@),
    {
        let mut i: usize = 0;
        let mut found = false;
        while i < self.slots.len()
            invariant_except_break
                !found,
            invariant
                self.wf(),
                i <= self.slots.len(),
                forall|j: int| 0 <= j < i ==> path_lt(#[trigger] self.entries()[j].0, p@),
            ensures
                found ==> i < self.entries().len() && self.entries()[i as int].0 == p@,
                !found ==> forall|j: int|
                    i <= j < self.entries().len() ==> path_lt(
                        p@,
                        #[trigger] self.entries()[j].0,
                    ),
            decreases self.slots.len() - i,
        {
            match self.slots[i].path.compare(p) {
                Sort::Before => {},
                Sort::Same => {
                    found = true;
                    break ;
                },
                Sort::After => {
                    assert forall|j: int| i <= j < self.entries().len() implies path_lt(
                        p@,
                        #[trigger] self.entries()[j].0,
                    ) by {
                        if j > i {
                            lemma_path_lt_transitive(
                                p@,
                                self.entries()[i as int].0,
                                self.entries()[j].0,
                            );
                        }
                    }
                    break ;
                },
            }
            i += 1;
        }
        (i, found)
    }

    /// The node at path `p`, if the table has one.
    pub fn get(&self, p: &FloppyPath) -> (r: Option<usize>)
        requires
            self.wf(),
        ensures
            r == if self@.dom().contains(p@) {
                Some(self@[p@])
            } else {
                None
            },
    {
        let (i, found) = self.search(p);
        if found {
            Some(self.slots[i].node)
        } else {
            None
        }
    }

    /// Whether the table has a pair for path `p`.
    pub fn contains(&self, p: &FloppyPath) -> (r: bool)
        requires
            self.wf(),
        ensures
            r == self@.dom().contains(p@),
    {
        self.search(p).1
    }

    /// Maps `p` to `node`, and returns the node that `p` was mapped to
    /// before.
    pub fn insert(&mut self, p: FloppyPath, node: usize) -> (r: Option<usize>)
        requires
            old(self).wf(),
        ensures
            final(self).wf(),
            final(self)@ == old(self)@.insert(p@, node),
            r == if old(self)@.dom().contains(p@) {
                Some(old(self)@[p@])
            } else {
                None
            },
    {
        let (i, found) = self.search(&p);
        let ghost e = self.entries();
        if found {
            let before = self.slots[i].node;
            proof {
                lemma_update_at(e, i as int, node);
            }
            self.slots[i].node = node;
            assert(self.entries() =~= e.update(i as int, (e[i as int].0, node)));
            Some(before)
        } else {
            proof {
                lemma_insert_at(e, i as int, p@, node);
            }
            self.slots.insert(i, Slot { path: p, node });
            assert(self.entries() =~= e.insert(i as int, (p@, node)));
            None
        }
    }

    /// Takes the pair at position `i` out, and returns its node.
    pub fn remove_at(&mut self, i: usize) -> (r: usize)
        requires
            old(self).wf(),
            i < old(self).entries().len(),
        ensures
            final(self).wf(),
            final(self).entries() == old(self).entries().remove(i as int),
            final(self)@ == old(self)@.remove(old(self).entries()[i as int].0),
            r == old(self).entries()[i as int].1,
    {
        let ghost e = self.entries();
        proof {
            lemma_remove_at(e, i as int);
        }
        let slot = self.slots.remove(i);
        assert(self.entries() =~= e.remove(i as int));
        slot.node
    }

    /// Takes the pair for path `p` out, and returns its node, if the table
    /// has one.
    pub fn remove(&mut self, p: &FloppyPath) -> (r: Option<usize>)
        requires
            old(self).wf(),
        ensures
            final(self).wf(),
            final(self)@ == old(self)@.remove(p@),
            r == if old(self)@.dom().contains(p@) {
                Some(old(self)@[p@])
            } else {
                None
            },
    {
        let (i, found) = self.search(p);
        if found {
            Some(self.remove_at(i))
        } else {
            None
        }
    }
}

} // verus!
